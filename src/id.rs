//! Positional ids: dot-separated, 1-based paths such as `2`, `1.3` or `2.1.4`,
//! and comma-separated lists of them.
use vstd::prelude::*;
use crate::text::chars_of;

verus! {

/// Where a left-to-right reading of an id list stands after some prefix of it.
pub struct Scan {
    /// The ids that a `,` has closed.
    pub ids: Seq<Seq<usize>>,
    /// The components of the id being read that a `.` has closed.
    pub comps: Seq<usize>,
    /// The value of the digits of the component being read.
    pub cur: nat,
    /// How many digits that component has so far.
    pub digits: nat,
    /// No character so far broke the grammar.
    pub ok: bool,
}

pub open spec fn is_digit(c: char) -> bool {
    '0' <= c && c <= '9'
}

pub open spec fn digit_value(c: char) -> nat {
    (c as u32 - '0' as u32) as nat
}

/// A component may end here: it has digits, and its value is between 1 and `usize::MAX`.
pub open spec fn component_ends(st: Scan) -> bool {
    st.digits > 0 && 1 <= st.cur <= usize::MAX
}

pub open spec fn scan_start() -> Scan {
    Scan { ids: Seq::empty(), comps: Seq::empty(), cur: 0, digits: 0, ok: true }
}

pub open spec fn scan_step(st: Scan, c: char) -> Scan {
    if !st.ok {
        st
    } else if is_digit(c) {
        Scan { ids: st.ids, comps: st.comps, cur: st.cur * 10 + digit_value(c), digits: st.digits + 1, ok: true }
    } else if c == '.' && component_ends(st) {
        Scan { ids: st.ids, comps: st.comps.push(st.cur as usize), cur: 0, digits: 0, ok: true }
    } else if c == ',' && component_ends(st) {
        Scan {
            ids: st.ids.push(st.comps.push(st.cur as usize)),
            comps: Seq::empty(),
            cur: 0,
            digits: 0,
            ok: true,
        }
    } else {
        Scan { ids: st.ids, comps: st.comps, cur: st.cur, digits: st.digits, ok: false }
    }
}

pub open spec fn scan(s: Seq<char>) -> Scan
    decreases s.len(),
{
    if s.len() == 0 {
        scan_start()
    } else {
        scan_step(scan(s.drop_last()), s.last())
    }
}

/// The ids that `s` lists, as 1-based paths, or `None` where `s` is not a
/// comma-separated list of ids. Every id is one or more components joined by
/// `.`; a component is a non-empty run of decimal digits whose value is
/// between 1 and `usize::MAX`.
pub open spec fn id_list_of(s: Seq<char>) -> Option<Seq<Seq<usize>>> {
    let st = scan(s);
    if st.ok && component_ends(st) {
        Some(st.ids.push(st.comps.push(st.cur as usize)))
    } else {
        None
    }
}

/// Once a prefix breaks the grammar, every longer prefix does.
proof fn lemma_scan_stays_broken(s: Seq<char>, j: int, k: int)
    requires
        0 <= j <= k <= s.len(),
        !scan(s.take(j)).ok,
    ensures
        !scan(s.take(k)).ok,
    decreases k - j,
{
    if j < k {
        assert(s.take(j + 1).drop_last() == s.take(j));
        lemma_scan_stays_broken(s, j + 1, k);
    }
}

/// The single id that `s` is, or `None`.
pub open spec fn id_of(s: Seq<char>) -> Option<Seq<usize>> {
    match id_list_of(s) {
        Some(ids) => if ids.len() == 1 { Some(ids[0]) } else { None },
        None => None,
    }
}

pub open spec fn paths_view(v: Seq<Vec<usize>>) -> Seq<Seq<usize>> {
    v.map_values(|p: Vec<usize>| p@)
}

/// Reads a comma-separated list of ids.
pub fn parse_ids(s: &str) -> (r: Option<Vec<Vec<usize>>>)
    ensures
        r is None <==> id_list_of(s@) is None,
        r is Some ==> id_list_of(s@) == Some(paths_view(r->0@)),
        r is Some ==> forall|k: int, j: int|
            0 <= k < r->0@.len() && 0 <= j < r->0@[k]@.len() ==> #[trigger] r->0@[k]@[j] >= 1,
        r is Some ==> forall|k: int| 0 <= k < r->0@.len() ==> (#[trigger] r->0@[k])@.len() > 0,
{
    let cs = chars_of(s);
    proof { assert(cs@.subrange(0, cs@.len() as int) == s@); }
    read_ids(&cs, 0, cs.len())
}

/// Reads a comma-separated list of ids from `cs[lo..hi]`.
pub fn read_ids(cs: &Vec<char>, lo: usize, hi: usize) -> (r: Option<Vec<Vec<usize>>>)
    requires
        lo <= hi <= cs.len(),
    ensures
        r is None <==> id_list_of(cs@.subrange(lo as int, hi as int)) is None,
        r is Some ==> id_list_of(cs@.subrange(lo as int, hi as int)) == Some(paths_view(r->0@)),
        r is Some ==> forall|k: int, j: int|
            0 <= k < r->0@.len() && 0 <= j < r->0@[k]@.len() ==> #[trigger] r->0@[k]@[j] >= 1,
        r is Some ==> forall|k: int| 0 <= k < r->0@.len() ==> (#[trigger] r->0@[k])@.len() > 0,
{
    let ghost s = cs@.subrange(lo as int, hi as int);
    let mut ids: Vec<Vec<usize>> = Vec::new();
    let mut comps: Vec<usize> = Vec::new();
    let mut cur: usize = 0;
    let mut big = false;
    let mut digits: usize = 0;
    let mut i: usize = lo;
    while i < hi
        invariant
            lo <= i <= hi <= cs.len(),
            s == cs@.subrange(lo as int, hi as int),
            digits <= i - lo,
            forall|k: int, j: int| 0 <= k < ids@.len() && 0 <= j < ids@[k]@.len() ==> #[trigger] ids@[k]@[j] >= 1,
            forall|k: int| 0 <= k < ids@.len() ==> (#[trigger] ids@[k])@.len() > 0,
            forall|j: int| 0 <= j < comps@.len() ==> #[trigger] comps@[j] >= 1,
            ({
                let st = scan(s.take(i - lo));
                &&& st.ok
                &&& paths_view(ids@) == st.ids
                &&& comps@ == st.comps
                &&& digits == st.digits
                &&& big <==> st.cur > usize::MAX
                &&& !big ==> cur == st.cur
            }),
        decreases hi - i,
    {
        let c = cs[i];
        proof {
            assert(s.take(i - lo + 1).drop_last() == s.take(i - lo));
        }
        let ghost st = scan(s.take(i - lo));
        if '0' <= c && c <= '9' {
            let d = (c as u32 - '0' as u32) as usize;
            if !big {
                if cur > (usize::MAX - d) / 10 {
                    big = true;
                    assert(cur * 10 + d > usize::MAX) by (nonlinear_arith)
                        requires cur > (usize::MAX - d) / 10, d <= 9;
                } else {
                    assert(cur * 10 + d <= usize::MAX) by (nonlinear_arith)
                        requires cur <= (usize::MAX - d) / 10, d <= 9;
                    cur = cur * 10 + d;
                }
            } else {
                assert(st.cur * 10 + d > usize::MAX) by (nonlinear_arith)
                    requires st.cur > usize::MAX;
            }
            digits = digits + 1;
        } else if (c == '.' || c == ',') && digits > 0 && !big && cur >= 1 {
            comps.push(cur);
            if c == ',' {
                let mut done: Vec<usize> = Vec::new();
                core::mem::swap(&mut done, &mut comps);
                ids.push(done);
                proof {
                    assert(paths_view(ids@) == st.ids.push(st.comps.push(st.cur as usize)));
                }
            }
            cur = 0;
            digits = 0;
        } else {
            proof {
                assert(!scan(s.take(i - lo + 1)).ok);
                lemma_scan_stays_broken(s, i - lo + 1, s.len() as int);
                assert(s.take(s.len() as int) == s);
            }
            return None;
        }
        i = i + 1;
    }
    proof {
        assert(s.take(hi - lo) == s);
    }
    if digits > 0 && !big && cur >= 1 {
        comps.push(cur);
        ids.push(comps);
        proof {
            let st = scan(s);
            assert(paths_view(ids@) == st.ids.push(st.comps.push(st.cur as usize)));
        }
        Some(ids)
    } else {
        None
    }
}

/// The decimal digit for `d`.
pub open spec fn digit_char(d: nat) -> char {
    seq!['0', '1', '2', '3', '4', '5', '6', '7', '8', '9'][d as int]
}

/// The decimal numeral of `n`.
pub open spec fn numeral(n: nat) -> Seq<char>
    decreases n,
{
    if n < 10 {
        seq![digit_char(n)]
    } else {
        numeral(n / 10).push(digit_char(n % 10))
    }
}

/// An id written out: its components' numerals joined by `.`.
pub open spec fn id_text(p: Seq<usize>) -> Seq<char>
    decreases p.len(),
{
    if p.len() <= 1 {
        if p.len() == 0 { Seq::empty() } else { numeral(p[0] as nat) }
    } else {
        id_text(p.drop_last()) + seq!['.'] + numeral(p.last() as nat)
    }
}

/// A list of ids written out, joined by `,`.
pub open spec fn list_text(ps: Seq<Seq<usize>>) -> Seq<char>
    decreases ps.len(),
{
    if ps.len() <= 1 {
        if ps.len() == 0 { Seq::empty() } else { id_text(ps[0]) }
    } else {
        list_text(ps.drop_last()) + seq![','] + id_text(ps.last())
    }
}

/// The decimal digit for `d`.
fn digit(d: usize) -> (c: char)
    requires
        d < 10,
    ensures
        c == digit_char(d as nat),
{
    let table = ['0', '1', '2', '3', '4', '5', '6', '7', '8', '9'];
    proof { assert(table@ =~= seq!['0', '1', '2', '3', '4', '5', '6', '7', '8', '9']); }
    table[d]
}

/// Writes the numeral of `n` after `out`.
pub fn push_numeral(out: &mut Vec<char>, n: usize)
    ensures
        final(out)@ == old(out)@ + numeral(n as nat),
    decreases n,
{
    if n >= 10 {
        push_numeral(out, n / 10);
    }
    out.push(digit(n % 10));
    proof {
        if n >= 10 {
            assert(final(out)@ =~= old(out)@ + numeral(n as nat));
        } else {
            assert(old(out)@.push(digit_char(n as nat)) =~= old(out)@ + numeral(n as nat));
        }
    }
}

/// Writes id `p` after `out`.
pub fn push_id(out: &mut Vec<char>, p: &Vec<usize>)
    ensures
        final(out)@ == old(out)@ + id_text(p@),
{
    let ghost start = out@;
    let mut k: usize = 0;
    while k < p.len()
        invariant
            k <= p.len(),
            out@ == start + id_text(p@.take(k as int)),
        decreases p.len() - k,
    {
        let ghost before = out@;
        if k > 0 {
            out.push('.');
        }
        push_numeral(out, p[k]);
        proof {
            let t = p@.take(k + 1);
            assert(t.drop_last() =~= p@.take(k as int));
            if k == 0 {
                assert(id_text(p@.take(0)) == Seq::<char>::empty());
                assert(out@ =~= start + id_text(t));
            } else {
                assert(out@ =~= start + id_text(t));
            }
        }
        k = k + 1;
    }
    proof { assert(p@.take(p.len() as int) =~= p@); }
}

/// Writes the ids `ps` out, joined by `,`.
pub fn list_string(ps: &Vec<Vec<usize>>) -> (r: String)
    ensures
        r@ == list_text(paths_view(ps@)),
{
    let mut out: Vec<char> = Vec::new();
    let mut k: usize = 0;
    while k < ps.len()
        invariant
            k <= ps.len(),
            out@ == list_text(paths_view(ps@).take(k as int)),
        decreases ps.len() - k,
    {
        if k > 0 {
            out.push(',');
        }
        push_id(&mut out, &ps[k]);
        proof {
            let t = paths_view(ps@).take(k + 1);
            assert(t.drop_last() =~= paths_view(ps@).take(k as int));
            if k == 0 {
                assert(out@ =~= list_text(t));
            } else {
                assert(out@ =~= list_text(t));
            }
        }
        k = k + 1;
    }
    proof { assert(paths_view(ps@).take(ps.len() as int) =~= paths_view(ps@)); }
    crate::text::string_of(&out)
}

} // verus!
