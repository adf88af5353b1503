//! The lease pricer embedded in the published page: a self-contained block of
//! markup, style and script whose one input is the indexation the slider opens at.

use vstd::prelude::*;

use crate::num::{format_fixed, spec_format_fixed, SCALE};
use crate::text::matches_at;

verus! {

/// The placeholder in the pricer's script that the indexation default fills.
pub const INDEXATION_SLOT: &'static str = "__INDEXATION__";

/// The pricer block up to the indexation default in its script.
pub const PRICER_HEAD: &'static str = r##"<div id="lcalc"></div>
<style>
#lcalc{--s1:#0a0a0a;--s2:#111;--ln:#1f1f1f;--tx:#f2f2f2;--mut:#8a8a8a;--jade:#79ff4f;--amb:#c98500;--red:#e06060;
 background:var(--s1);color:var(--tx);font-family:'Play',sans-serif;border:1px solid var(--ln);border-radius:12px;padding:16px}
#lcalc .cols{display:flex;gap:16px;flex-wrap:wrap}
#lcalc .panel{background:var(--s2);border:1px solid var(--ln);border-radius:10px;padding:14px}
#lcalc .ctrl{flex:1 1 240px;min-width:220px}
#lcalc .out{flex:1 1 260px;min-width:240px;display:flex;flex-direction:column;gap:12px}
#lcalc h4{font-size:13px;color:var(--tx);letter-spacing:1.2px;text-transform:uppercase;margin:14px 0 10px;font-weight:400}
#lcalc h4:first-child{margin-top:0}
#lcalc .row{margin-bottom:12px}
#lcalc .row.fixed{padding-bottom:10px;border-bottom:1px solid var(--ln)}
#lcalc .row.fixed .val{color:var(--tx)}
#lcalc .row.live .val{color:var(--jade)}
#lcalc .row .top{display:flex;justify-content:space-between;align-items:baseline;margin-bottom:3px;gap:8px}
#lcalc label{font-size:12px;color:var(--mut)}
#lcalc .val{font-size:13px;font-variant-numeric:tabular-nums;white-space:nowrap}
#lcalc input[type=range]{width:100%;accent-color:var(--jade);height:3px;cursor:pointer;margin:0}
#lcalc .hint{font-size:11px;color:var(--mut);margin-top:3px;line-height:1.4}
#lcalc .stats{display:flex;gap:10px;flex-wrap:wrap}
#lcalc .stat{background:var(--s2);border:1px solid var(--ln);border-radius:8px;padding:10px 12px;flex:1;min-width:118px}
#lcalc .stat .l{font-size:11px;color:var(--mut);margin-bottom:3px}
#lcalc .stat .v{font-size:18px;font-weight:700;font-variant-numeric:tabular-nums}
#lcalc .stat .s{font-size:11px;color:var(--mut);margin-top:2px}
#lcalc .note{font-size:12px;color:var(--mut);line-height:1.55;margin:10px 0 0}
#lcalc svg text{font-size:10px;fill:var(--mut);font-variant-numeric:tabular-nums}
#lcalc .legend{font-size:11px;color:var(--mut);display:flex;gap:14px;flex-wrap:wrap;margin:6px 0 0 4px}
#lcalc .legend i{display:inline-block;width:14px;height:2.5px;vertical-align:middle;margin-right:5px}
</style>
<script>
(function(){
const root=document.getElementById('lcalc');
const P={L:100000,T:25,p:20,rBase:9,spread:5,"##;

/// The key the indexation default is written under in the pricer's script.
pub const INDEXATION_KEY: &'static str = "cpi:";

/// What closes the indexation default in the pricer's script.
pub const INDEXATION_END: &'static str = ",";

/// The pricer block after the indexation default.
pub const PRICER_TAIL: &'static str = r##"g:10,N:5};
const fmt=v=>v>=1000?'$'+(v/1000).toFixed(v>=100000?0:1)+'k':'$'+Math.round(v);
const full=v=>'$'+Math.round(v).toLocaleString('en-US');
const pct=(v,d=1)=>v.toFixed(d)+'%';
// only the indexation moves: everything else is the standard deal and the
// estate's underwriting, shown as the fixed figures they are
const LIVE=['cpi'];
const DEFS=[
 ['deal','Your lease'],
 ['L','Leasehold value today',20000,2000000,10000,'$','What the right to use the parcel for the term is worth — the product itself, priced directly'],
 ['T','Term',5,99,1,' yr','The standard term'],
 ['p','Premium (share of economics)',0,100,5,'%','How much of the lease is paid at signing rather than carried as rent. 100% is the upfront instrument, 0% is pure rent'],
 ['world','What the world does'],
 ['cpi','Indexation',-15,35,0.5,'%','The band is the collar of the protocol: rent may rise at most 35% and fall at most 15% in a year. The default is what the index delivered over the published decade, which ran hotter than the collar allows'],
 ['g','Land growth g',0,20,0.5,'%','What the parcel appreciates at. Nobody sets this; Bali has historically outrun CPI'],
 ['estate','How the estate prices it'],
 ['rBase','Base rate (at 100% premium)',5,18,0.5,'%','The estate discount rate. Not a tenant dial — shown so the price can be checked rather than trusted'],
 ['spread','Risk spread (at 0% premium)',0,10,0.5,'%','What the estate charges for carrying default risk as the premium shrinks'],
 ['N','Review every',1,15,1,' yr','Rent = max(indexed path, the first year carried forward at g); the lessor keeps the same position in the parcel however far the index falls behind']];
let html='';
for(const d of DEFS){
 if(d.length===2){html+='<h4>'+d[1]+'</h4>';continue}
 const[id,lab,mn,mx,st,suf,hint]=d;
 const live=LIVE.includes(id);
 html+='<div class="row'+(live?' live':' fixed')+'"><div class=top><label>'+lab+'</label><span class=val id=v_'+id+'></span></div>'
 +(live?'<input type=range id=in_'+id+' min='+mn+' max='+mx+' step='+st+' value='+P[id]+'>':'')
 +(hint?'<div class=hint>'+hint+'</div>':'')+'</div>';
}
root.innerHTML='<div class=cols><div class="panel ctrl">'+html+'</div>'
+'<div class=out><div class=stats id=st1></div>'
+'<div class=panel><h4>Rent path, $/yr</h4><div id=lchart></div>'
+'<div class=legend><span><i style="background:var(--mut)"></i>rent tracking the parcel (target)</span>'
+'<span><i style="background:var(--red)"></i>index only</span>'
+'<span><i style="background:var(--amb)"></i>index + review</span></div></div>'
+'<div class=panel><h4>What the review buys</h4><div class=stats id=st2></div>'
+'<p class=note>The red line is rent that is indexed but whose share of the asset melts away when g &gt; the index. '
+'The amber line is pulled back at each review to X% of current land value and indexed from the new base. '
+'When g equals the index the two coincide: the review costs the tenant nothing and is pure insurance.</p></div></div></div>';

function calc(){
 const pf=P.p/100, rAdj=(P.rBase+P.spread*(1-pf))/100, cpi=P.cpi/100, g=P.g/100;
 const totalPV=P.L, premium=pf*totalPV, remainder=totalPV-premium;
 let A=0; for(let t=1;t<=P.T;t++) A+=Math.pow(1+cpi,t-1)/Math.pow(1+rAdj,t);
 const rent1=remainder/A, yld=rent1/P.L*100;
 const rows=[]; let bi=rent1,br=rent1,pvI=0,pvR=0,nomI=0,nomR=0;
 for(let t=1;t<=P.T;t++){
  if(t>1){bi*=1+cpi;br*=1+cpi}
  // the review target keeps the lessor's share of the parcel: the first
  // year's rent carried forward at the growth rate
  const target=rent1*Math.pow(1+g,t-1);
  if(t>1&&(t-1)%P.N===0) br=Math.max(br,target);
  rows.push([t,bi,br,target]);
  pvI+=bi/Math.pow(1+rAdj,t); pvR+=br/Math.pow(1+rAdj,t); nomI+=bi; nomR+=br;
 }
 return{rAdj:rAdj*100,premium,totalPV,rent1,yld,rows,pvI,pvR,nomI,nomR,
  leaseEnd:P.L*Math.pow(1+g,P.T-1),takeI:premium+pvI,takeR:premium+pvR};
}
function stat(l,v,s,c){return '<div class=stat><div class=l>'+l+'</div><div class=v'+(c?' style=color:'+c:'')+'>'+v+'</div>'+(s?'<div class=s>'+s+'</div>':'')+'</div>'}
function chart(rows){
 const W=640,H=290,L=54,R=10,Tp=10,B=24,pw=W-L-R,ph=H-Tp-B;
 const mx=Math.max(...rows.map(r=>Math.max(r[2],r[3])))*1.06;
 const x=t=>L+pw*(t-1)/Math.max(rows.length-1,1), y=v=>Tp+ph*(1-v/mx);
 const line=(i,col,dash)=>'<polyline fill=none stroke='+col+' stroke-width='+(i===2?2.2:1.5)+(dash?' stroke-dasharray="3 4"':'')
  +' points="'+rows.map(r=>x(r[0]).toFixed(1)+','+y(r[i]).toFixed(1)).join(' ')+'"/>';
 let ticks='';
 for(let i=0;i<=4;i++){const v=mx*i/4,yy=y(v);
  ticks+='<line x1='+L+' y1='+yy+' x2='+(W-R)+' y2='+yy+' stroke=#1f1f1f stroke-width=0.5></line>'
  +'<text x='+(L-6)+' y='+(yy+3)+' text-anchor=end>'+fmt(v)+'</text>';}
 const step=Math.ceil(rows.length/8);
 for(let t=1;t<=rows.length;t+=step) ticks+='<text x='+x(t)+' y='+(H-6)+' text-anchor=middle>'+t+'</text>';
 return '<svg viewBox="0 0 '+W+' '+H+'" style="width:100%;height:auto">'+ticks
  +line(3,'#8a8a8a',1)+line(1,'#e06060')+line(2,'#c98500')+'</svg>';
}
function render(){
 for(const d of DEFS){if(d.length===2)continue;const id=d[0];
  document.getElementById('v_'+id).textContent=(d[5]==='$'?full(P[id]):P[id]+d[5]);}
 const c=calc(), gain=c.takeR-c.takeI;
 document.getElementById('st1').innerHTML=
  stat('Premium (first payment)',fmt(c.premium),P.p+'% of '+fmt(c.totalPV)+' of leasehold value','var(--jade)')
  +stat('Rent, year 1',fmt(c.rent1)+'/yr','yield '+pct(c.yld,2)+' · rate '+pct(c.rAdj))
  +stat('PV of the deal',fmt(c.takeR),'vs '+fmt(c.takeI)+' without review');
 document.getElementById('st2').innerHTML=
  stat('PV gained from review','+'+fmt(gain),'+'+pct(gain/c.takeI*100)+' on the deal','var(--amb)')
  +stat('Nominal rent over the term',fmt(c.nomR),'vs '+fmt(c.nomI)+' without review')
  +stat('Lease at the end',fmt(c.leaseEnd),'growth '+P.g+'%/yr over '+P.T+' years');
 document.getElementById('lchart').innerHTML=chart(c.rows);
}
for(const id of LIVE){
 document.getElementById('in_'+id).addEventListener('input',e=>{P[id]=parseFloat(e.target.value);render()});}
render();
})();
</script>"##;

/// The pricer block with `indexation_default` written as the starting
/// value of the indexation slider.
pub open spec fn pricer_text(indexation_default: Seq<char>) -> Seq<char> {
    PRICER_HEAD@ + INDEXATION_KEY@ + indexation_default + INDEXATION_END@ + PRICER_TAIL@
}

/// The pricer block with `indexation_default`, the percentage the indexation
/// slider starts at, written in place of the placeholder. The default
/// follows `cpi:` in the script, and a placeholder can appear in the result
/// only inside the default or inside the fixed text around it, never across
/// their boundaries.
pub fn html(indexation_default: &str) -> (r: String)
    ensures
        r@ == pricer_text(indexation_default@),
        r@.subrange(PRICER_HEAD@.len() as int, (PRICER_HEAD@.len() + 4 + indexation_default@.len()) as int)
            == INDEXATION_KEY@ + indexation_default@,
        forall|i: int| #[trigger] matches_at(r@, INDEXATION_SLOT@, i) ==> slot_within_parts(indexation_default@, i),
{
    let mut out = String::from_str(PRICER_HEAD);
    out.append(INDEXATION_KEY);
    out.append(indexation_default);
    out.append(INDEXATION_END);
    out.append(PRICER_TAIL);
    proof {
        reveal_strlit("cpi:");
        lemma_slot_within_parts(indexation_default@);
        let h = PRICER_HEAD@.len() as int;
        assert(out@ =~= PRICER_HEAD@ + (INDEXATION_KEY@ + indexation_default@) + (INDEXATION_END@ + PRICER_TAIL@));
        assert(out@.subrange(h, h + 4 + indexation_default@.len()) =~= INDEXATION_KEY@ + indexation_default@);
    }
    out
}

/// An occurrence of the placeholder at `i` in the pricer text lies wholly in
/// the fixed head, wholly in the default, or wholly in the fixed tail.
pub open spec fn slot_within_parts(d: Seq<char>, i: int) -> bool {
    let h = PRICER_HEAD@.len() as int;
    let n = INDEXATION_SLOT@.len() as int;
    ||| i + n <= h && matches_at(PRICER_HEAD@, INDEXATION_SLOT@, i)
    ||| h + 4 <= i && i + n <= h + 4 + d.len() && matches_at(d, INDEXATION_SLOT@, i - h - 4)
    ||| h + 5 + d.len() <= i && matches_at(PRICER_TAIL@, INDEXATION_SLOT@, i - h - 5 - d.len())
}

/// The placeholder holds only underscores and capitals, none of which
/// appears in the key before the default or in the comma after it, so no
/// occurrence can straddle a boundary.
pub proof fn lemma_slot_within_parts(d: Seq<char>)
    ensures
        forall|i: int| #[trigger] matches_at(pricer_text(d), INDEXATION_SLOT@, i) ==> slot_within_parts(d, i),
{
    reveal_strlit("__INDEXATION__");
    reveal_strlit("cpi:");
    let pat = INDEXATION_SLOT@;
    let r = pricer_text(d);
    let h = PRICER_HEAD@.len() as int;
    let e = h + 4 + d.len();
    reveal_strlit(",");
    assert forall|i: int| #[trigger] matches_at(r, pat, i) implies slot_within_parts(d, i) by {
        assert(pat.len() == 14);
        assert forall|j: int| 0 <= j < 14 implies #[trigger] pat[j] != ',' && pat[j] != 'c' && pat[j] != 'p'
            && pat[j] != 'i' && pat[j] != ':' by {}
        assert(r.subrange(i, i + 14) == pat);
        // the key's four characters and the tail's first are not in the placeholder
        assert forall|j: int| h <= j < h + 4 implies #[trigger] r[j] != '_' && r[j] != 'I' && r[j] != 'N' && r[j] != 'D'
            && r[j] != 'E' && r[j] != 'X' && r[j] != 'A' && r[j] != 'T' && r[j] != 'O' by {
            assert(r[j] == INDEXATION_KEY@[j - h]);
        }
        assert(r[e] == ',');
        if i < h + 4 && i + 14 > h {
            let j = if i > h { i } else { h };
            assert(r[j] == pat[j - i]);
        } else if h + 4 <= i < e && i + 14 > e {
            assert(r[e] == pat[e - i]);
        } else if i + 14 <= h {
            assert(PRICER_HEAD@.subrange(i, i + 14) =~= r.subrange(i, i + 14));
        } else if h + 4 <= i && i + 14 <= e {
            assert(d.subrange(i - h - 4, i - h - 4 + 14) =~= r.subrange(i, i + 14));
        } else if i == e {
            assert(r[e] == pat[0]);
        } else {
            assert(PRICER_TAIL@.subrange(i - e - 1, i - e - 1 + 14) =~= r.subrange(i, i + 14));
        }
    }
}


/// The lowest indexation the slider offers: the collar's floor of -15% a year.
pub const INDEXATION_FLOOR: i128 = -15 * SCALE;

/// The highest indexation the slider offers: the collar's cap of +35% a year.
pub const INDEXATION_CAP: i128 = 35 * SCALE;

/// What the slider opens at: the annual rate the index delivered, held
/// within the collar band, or 4% when there is no rate to show.
pub open spec fn slider_text(rate: Option<i128>) -> Seq<char> {
    match rate {
        Some(r) => spec_format_fixed(
            if r < INDEXATION_FLOOR { INDEXATION_FLOOR as int } else if r > INDEXATION_CAP { INDEXATION_CAP as int } else { r as int },
            1,
        ),
        None => "4"@,
    }
}

/// The indexation the slider opens at, from the annual rate (fixed-point
/// percent) the index delivered.
pub fn slider_default(rate: Option<i128>) -> (r: String)
    ensures
        r@ == slider_text(rate),
{
    match rate {
        Some(r) => {
            let held = if r < INDEXATION_FLOOR {
                INDEXATION_FLOOR
            } else if r > INDEXATION_CAP {
                INDEXATION_CAP
            } else {
                r
            };
            format_fixed(held, 1)
        },
        None => String::from_str("4"),
    }
}

} // verus!
