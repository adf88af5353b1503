use cx::calculator::html;

#[test]
fn carries_the_model_and_its_controls() {
    let h = html("4");
    // every input of the lease model is a control
    for id in ["L", "T", "p", "rBase", "spread", "cpi", "g", "N"] {
        assert!(h.contains(&format!("['{id}'")), "missing control {id}");
    }
    // the pricing identities, unchanged
    assert!(h.contains("rAdj=(P.rBase+P.spread*(1-pf))/100"));
    assert!(h.contains("A+=Math.pow(1+cpi,t-1)/Math.pow(1+rAdj,t)"));
    assert!(h.contains("br=Math.max(br,target)"));
}

#[test]
fn is_published_in_english() {
    // a published page is in English
    assert!(!html("4").chars().any(|c| ('\u{0400}'..='\u{04FF}').contains(&c)));
}

#[test]
fn scopes_its_own_ids() {
    // the page already owns #chart; the pricer must not collide with it
    let h = html("4");
    assert!(h.contains("lchart"));
    assert!(!h.contains("getElementById('chart')"));
}

#[test]
fn the_indexation_default_is_injected_and_the_band_is_the_collar() {
    let h = html("35");
    assert!(h.contains("cpi:35"), "default not seeded");
    assert!(!h.contains("__INDEXATION__"), "placeholder survived");
    assert!(h.contains("'Indexation',-15,35,0.5"), "slider does not span the collar");
}

#[test]
fn the_pricer_never_speaks_of_freehold() {
    let h = html("35");
    // a right of use is the product; quoting a freehold here would price a
    // thing that is not for sale
    assert!(h.contains("'Leasehold value today'"));
    assert!(!h.to_lowercase().contains("freehold"));
    assert!(!h.contains("Relativity"));
    // the rent reset target is the reparameterised identity
    assert!(h.contains("target=rent1*Math.pow(1+g,t-1)"));
}

#[test]
fn the_term_opens_at_the_standard_lease() {
    assert!(html("35").contains("T:25"), "term should default to 25 years");
}

#[test]
fn only_the_indexation_can_be_moved() {
    let h = html("35");
    // a slider invites negotiation; the deal and the underwriting are not
    // negotiable here, so they must not look like controls. ids are built
    // by concatenation at runtime, so assert on what the template emits.
    assert_eq!(h.matches("<input type=range").count(), 1, "more than one control");
    assert!(h.contains("LIVE=['cpi']"), "the live list is not just the index");
    assert!(h.contains("for(const id of LIVE)"), "listeners are not bound to LIVE");
    assert!(h.contains("live?'<input type=range"), "the control is not gated on LIVE");
    assert!(h.contains("row.fixed"), "fixed rows are not styled as stated figures");
}

#[test]
fn the_dials_are_grouped_by_who_holds_them() {
    let h = html("35");
    // a reader must be able to tell the deal from the estate's underwriting
    let client = h.find("Your lease").expect("client group");
    let world = h.find("What the world does").expect("world group");
    let estate = h.find("How the estate prices it").expect("estate group");
    assert!(client < world && world < estate, "groups out of order");
    // the underwriting dials say plainly that they are not the tenant's
    assert!(h.contains("Not a tenant dial"));
}

