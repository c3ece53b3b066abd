//! The command-line settings, and the id lists and ranges a user types.
use vstd::prelude::*;
use crate::error::TaskError;
use crate::id::{id_list_of, id_of, list_string, list_text, paths_view, read_ids};
use crate::text::chars_of;

verus! {

/// What one run of the program was asked to do.
#[derive(Debug)]
pub struct Cli {
    /// Make the listing colored.
    pub colored_output: bool,
    /// The command to run.
    pub command: String,
    /// Where to add a new task: `top`, `bot` or `bottom`.
    pub add_to: String,
    /// A comma-separated list of ids, or a range, or `all`.
    pub task_ids: String,
    /// The second id of commands that move tasks.
    pub move_id: String,
    /// Text for the commands that set a task's text.
    pub contents: String,
}

impl Cli {
    /// The settings of a run given no arguments: a colored listing.
    pub fn new() -> (r: Self)
        ensures
            r.colored_output,
            r.command@ == "print"@,
            r.add_to@ == "top"@,
            r.task_ids@.len() == 0,
            r.move_id@.len() == 0,
            r.contents@.len() == 0,
    {
        Cli {
            colored_output: true,
            command: "print".to_owned(),
            add_to: "top".to_owned(),
            task_ids: String::new(),
            move_id: String::new(),
            contents: String::new(),
        }
    }
}

/// The order of ids: component by component, an id before those it is a prefix of.
pub open spec fn path_lt(a: Seq<usize>, b: Seq<usize>) -> bool
    decreases a.len(),
{
    if a.len() == 0 {
        b.len() > 0
    } else if b.len() == 0 {
        false
    } else if a[0] != b[0] {
        a[0] < b[0]
    } else {
        path_lt(a.drop_first(), b.drop_first())
    }
}

/// Strictly increasing in the order of ids, so without repeats.
pub open spec fn ascending(ps: Seq<Seq<usize>>) -> bool {
    forall|i: int, j: int| 0 <= i < j < ps.len() ==> path_lt(#[trigger] ps[i], #[trigger] ps[j])
}

/// The ids of `ps` in the order of ids, each once.
pub open spec fn sorted_ids(ps: Seq<Seq<usize>>) -> Seq<Seq<usize>> {
    choose|out: Seq<Seq<usize>>| ascending(out) && out.to_set() == ps.to_set()
}

proof fn lemma_path_lt_total(a: Seq<usize>, b: Seq<usize>)
    ensures
        a == b || path_lt(a, b) || path_lt(b, a),
        !(path_lt(a, b) && path_lt(b, a)),
        !path_lt(a, a),
    decreases a.len(),
{
    if a.len() > 0 && b.len() > 0 && a[0] == b[0] {
        lemma_path_lt_total(a.drop_first(), b.drop_first());
        if a.drop_first() == b.drop_first() {
            assert(a =~= seq![a[0]] + a.drop_first());
            assert(b =~= seq![b[0]] + b.drop_first());
        }
    }
    if a.len() > 0 {
        lemma_path_lt_total(a.drop_first(), a.drop_first());
    }
    if a.len() == 0 && b.len() == 0 {
        assert(a =~= b);
    }
}

proof fn lemma_path_lt_trans(a: Seq<usize>, b: Seq<usize>, c: Seq<usize>)
    requires
        path_lt(a, b),
        path_lt(b, c),
    ensures
        path_lt(a, c),
    decreases a.len(),
{
    if a.len() > 0 && a[0] == b[0] && b[0] == c[0] {
        lemma_path_lt_trans(a.drop_first(), b.drop_first(), c.drop_first());
    }
}

/// Compares two ids in the order of ids.
fn less(a: &Vec<usize>, b: &Vec<usize>) -> (r: bool)
    ensures
        r == path_lt(a@, b@),
{
    let mut j: usize = 0;
    proof {
        assert(a@.skip(0) == a@);
        assert(b@.skip(0) == b@);
    }
    while j < a.len() && j < b.len()
        invariant
            j <= a.len(),
            j <= b.len(),
            path_lt(a@, b@) == path_lt(a@.skip(j as int), b@.skip(j as int)),
        decreases a.len() - j,
    {
        proof {
            assert(a@.skip(j as int).drop_first() =~= a@.skip(j + 1));
            assert(b@.skip(j as int).drop_first() =~= b@.skip(j + 1));
        }
        if a[j] != b[j] {
            return a[j] < b[j];
        }
        j = j + 1;
    }
    j == a.len() && j < b.len()
}

/// Puts `x` in its place in `out`, unless it is there already.
fn insert_sorted(out: &mut Vec<Vec<usize>>, x: Vec<usize>)
    requires
        ascending(paths_view(old(out)@)),
    ensures
        ascending(paths_view(final(out)@)),
        paths_view(final(out)@).to_set() == paths_view(old(out)@).to_set().insert(x@),
{
    let ghost v = paths_view(out@);
    let mut pos: usize = 0;
    while pos < out.len() && less(&out[pos], &x)
        invariant
            pos <= out.len(),
            v == paths_view(out@),
            forall|i: int| 0 <= i < pos ==> path_lt(#[trigger] v[i], x@),
        decreases out.len() - pos,
    {
        pos = pos + 1;
    }
    if pos < out.len() {
        proof { lemma_path_lt_total(v[pos as int], x@); }
        if !less(&x, &out[pos]) {
            proof {
                assert(v[pos as int] == x@);
                assert(v.to_set().insert(x@) =~= v.to_set());
            }
            return;
        }
    }
    out.insert(pos, x);
    proof {
        let w = paths_view(out@);
        assert(w =~= v.insert(pos as int, x@));
        assert forall|j: int| pos < j < w.len() implies path_lt(x@, #[trigger] w[j]) by {
            if j > pos + 1 {
                lemma_path_lt_trans(x@, v[pos as int], v[j - 1]);
            }
        }
        assert forall|i: int, j: int| 0 <= i < j < w.len() implies path_lt(#[trigger] w[i], #[trigger] w[j]) by {
            if i < pos && j > pos {
                lemma_path_lt_trans(v[i], x@, w[j]);
            }
        }
        assert(w.to_set() =~= v.to_set().insert(x@)) by {
            assert forall|e: Seq<usize>| w.to_set().contains(e) <==> v.to_set().insert(x@).contains(e) by {
                if w.to_set().contains(e) {
                    let k = choose|k: int| 0 <= k < w.len() && w[k] == e;
                    if k < pos {
                        assert(v[k] == e);
                    } else if k > pos {
                        assert(v[k - 1] == e);
                    }
                }
                if v.to_set().contains(e) {
                    let k = choose|k: int| 0 <= k < v.len() && v[k] == e;
                    if k < pos {
                        assert(w[k] == e);
                    } else {
                        assert(w[k + 1] == e);
                    }
                }
                if e == x@ {
                    assert(w[pos as int] == e);
                }
            }
        }
    }
}

/// Sorts `ps` in the order of ids and drops repeats.
fn sorted_unique(ps: &Vec<Vec<usize>>) -> (r: Vec<Vec<usize>>)
    ensures
        ascending(paths_view(r@)),
        paths_view(r@).to_set() == paths_view(ps@).to_set(),
{
    let mut out: Vec<Vec<usize>> = Vec::new();
    let mut k: usize = 0;
    while k < ps.len()
        invariant
            k <= ps.len(),
            ascending(paths_view(out@)),
            paths_view(out@).to_set() == paths_view(ps@).take(k as int).to_set(),
        decreases ps.len() - k,
    {
        let x = ps[k].clone();
        proof {
            assert(paths_view(ps@).take(k + 1) =~= paths_view(ps@).take(k as int).push(ps@[k as int]@));
            paths_view(ps@).take(k as int).lemma_push_to_set_commute(ps@[k as int]@);
        }
        insert_sorted(&mut out, x);
        k = k + 1;
    }
    proof {
        assert(paths_view(ps@).take(ps.len() as int) =~= paths_view(ps@));
        assert(paths_view(Seq::<Vec<usize>>::empty()) =~= Seq::<Seq<usize>>::empty());
    }
    out
}

impl Cli {
    /// Writes the comma-separated id list `ids` in the order of ids, each id
    /// once and in its plain form (`02` becomes `2`).
    pub fn parse_id_list(ids: &str) -> (r: Result<String, TaskError>)
        ensures
            match id_list_of(ids@) {
                None => r == Err::<String, TaskError>(TaskError::MalformedId),
                Some(ps) => r is Ok && r->Ok_0@ == list_text(sorted_ids(ps)),
            },
    {
        let cs = chars_of(ids);
        proof { assert(cs@.subrange(0, cs@.len() as int) == ids@); }
        match read_ids(&cs, 0, cs.len()) {
            None => Err(TaskError::MalformedId),
            Some(ps) => {
                let out = sorted_unique(&ps);
                let s = list_string(&out);
                proof {
                    let v = paths_view(out@);
                    let c = sorted_ids(paths_view(ps@));
                    assert(ascending(v) && v.to_set() == paths_view(ps@).to_set());
                    lemma_ascending_unique(v, c);
                }
                Ok(s)
            },
        }
    }
}

/// Where `s` first has two dots in a row, looking from `k` on; -1 if nowhere.
pub open spec fn range_dots(s: Seq<char>, k: int) -> int
    decreases s.len() - k,
{
    if k < 0 || k + 1 >= s.len() {
        -1
    } else if s[k] == '.' && s[k + 1] == '.' {
        k
    } else {
        range_dots(s, k + 1)
    }
}

/// The ids a range from `l` to `r` stands for: `l`, every root id strictly
/// between their first components, and `r`.
pub open spec fn range_ids(l: Seq<usize>, r: Seq<usize>) -> Seq<Seq<usize>> {
    if l[0] == r[0] {
        if l == r { seq![l] } else { seq![l, r] }
    } else {
        seq![l] + Seq::new((r[0] - l[0] - 1) as nat, |j: int| seq![(l[0] + 1 + j) as usize]) + seq![r]
    }
}

/// The ids that the range `s` (two ids joined by `..`) stands for, or `None`
/// where `s` is no range or its first id comes after its last.
pub open spec fn range_of(s: Seq<char>) -> Option<Seq<Seq<usize>>> {
    let k = range_dots(s, 0);
    if k < 0 {
        None
    } else {
        match (id_of(s.take(k)), id_of(s.skip(k + 2))) {
            (Some(l), Some(r)) => if l[0] <= r[0] { Some(range_ids(l, r)) } else { None },
            _ => None,
        }
    }
}

/// Reads one id from `cs[lo..hi]`.
fn read_one(cs: &Vec<char>, lo: usize, hi: usize) -> (r: Option<Vec<usize>>)
    requires
        lo <= hi <= cs.len(),
    ensures
        r is None <==> id_of(cs@.subrange(lo as int, hi as int)) is None,
        r is Some ==> id_of(cs@.subrange(lo as int, hi as int)) == Some(r->0@) && r->0@.len() > 0,
{
    match read_ids(cs, lo, hi) {
        None => None,
        Some(mut ids) => {
            if ids.len() != 1 {
                return None;
            }
            proof { assert(paths_view(ids@)[0] == ids@[0]@); }
            ids.pop()
        },
    }
}

impl Cli {
    /// Writes out the ids that the range `ids` (as `1..5` or `1.2..5.9`)
    /// stands for, joined by `,`: the first id, each root id between, the last.
    pub fn parse_id_range(ids: &str) -> (r: Result<String, TaskError>)
        ensures
            match range_of(ids@) {
                None => r == Err::<String, TaskError>(TaskError::MalformedId),
                Some(ps) => r is Ok && r->Ok_0@ == list_text(ps),
            },
    {
        let cs = chars_of(ids);
        let ghost s = ids@;
        let mut k: usize = 0;
        while k < cs.len() && k + 1 < cs.len() && !(cs[k] == '.' && cs[k + 1] == '.')
            invariant
                cs@ == s,
                k <= cs.len(),
                range_dots(s, 0) == range_dots(s, k as int),
            decreases cs.len() - k,
        {
            k = k + 1;
        }
        if k >= cs.len() || k + 1 >= cs.len() {
            return Err(TaskError::MalformedId);
        }
        proof {
            assert(cs@.subrange(0, k as int) == s.take(k as int));
            assert(cs@.subrange(k + 2, cs.len() as int) == s.skip(k + 2));
        }
        let l = match read_one(&cs, 0, k) {
            None => { return Err(TaskError::MalformedId); },
            Some(l) => l,
        };
        let r = match read_one(&cs, k + 2, cs.len()) {
            None => { return Err(TaskError::MalformedId); },
            Some(r) => r,
        };
        let (start, end) = (l[0], r[0]);
        if start > end {
            return Err(TaskError::MalformedId);
        }
        let ghost want = range_ids(l@, r@);
        let ghost (lv, rv) = (l@, r@);
        let mut out: Vec<Vec<usize>> = Vec::new();
        if start == end {
            let same = !less(&l, &r) && !less(&r, &l);
            proof { lemma_path_lt_total(l@, r@); }
            out.push(l);
            if !same {
                out.push(r);
            }
            proof { assert(paths_view(out@) =~= want); }
        } else {
            out.push(l);
            let mut v: usize = start + 1;
            while v < end
                invariant
                    start < v <= end,
                    paths_view(out@) =~= want.take(v - start),
                    want == range_ids(lv, rv),
                    lv.len() > 0,
                    rv.len() > 0,
                    start == lv[0],
                    end == rv[0],
                    start < end,
                decreases end - v,
            {
                let mut one: Vec<usize> = Vec::new();
                one.push(v);
                let ghost before = paths_view(out@);
                let ghost ov = one@;
                out.push(one);
                proof {
                    assert(ov =~= seq![v]);
                    assert(paths_view(out@) =~= before.push(ov));
                    assert(want.take(v - start + 1) =~= want.take(v - start).push(want[v - start]));
                    assert(want[v - start] == seq![v]);
                    assert(paths_view(out@) =~= want.take(v - start + 1));
                }
                v = v + 1;
            }
            let ghost before = paths_view(out@);
            out.push(r);
            proof {
                assert(paths_view(out@) =~= before.push(rv));
                assert(want[end - start] == rv);
                assert(want =~= want.take(end - start).push(rv));
                assert(paths_view(out@) =~= want);
            }
        }
        Ok(list_string(&out))
    }
}

/// `s` holds the character `c`.
pub open spec fn has_char(s: Seq<char>, c: char) -> bool {
    exists|i: int| 0 <= i < s.len() && s[i] == c
}

/// The comma-separated id list that a command's id argument `s` stands for,
/// with `task_count` tasks at the root: `all` is every root id, a range is
/// written out, a list is sorted without repeats, and one id stays as it is.
pub open spec fn expanded(s: Seq<char>, task_count: nat) -> Result<Seq<char>, TaskError> {
    if s == "all"@ {
        if task_count == 0 {
            Err(TaskError::EmptyTree)
        } else {
            Ok(list_text(range_ids(seq![1usize], seq![task_count as usize])))
        }
    } else if range_dots(s, 0) >= 0 {
        match range_of(s) {
            Some(ps) => Ok(list_text(ps)),
            None => Err(TaskError::MalformedId),
        }
    } else if has_char(s, ',') {
        match id_list_of(s) {
            Some(ps) => Ok(list_text(sorted_ids(ps))),
            None => Err(TaskError::MalformedId),
        }
    } else {
        Ok(s)
    }
}

/// Whether `cs` holds a comma.
fn has_comma(cs: &Vec<char>) -> (r: bool)
    ensures
        r == has_char(cs@, ','),
{
    let mut k: usize = 0;
    while k < cs.len()
        invariant
            k <= cs.len(),
            forall|i: int| 0 <= i < k ==> cs@[i] != ',',
        decreases cs.len() - k,
    {
        if cs[k] == ',' {
            return true;
        }
        k = k + 1;
    }
    false
}

impl Cli {
    /// The ids that the id argument `ids` of a command names, written out as
    /// a comma-separated list; see `expanded`.
    pub fn expand_ids(ids: &str, task_count: usize) -> (r: Result<String, TaskError>)
        ensures
            match expanded(ids@, task_count as nat) {
                Ok(text) => r is Ok && r->Ok_0@ == text,
                Err(e) => r == Err::<String, TaskError>(e),
            },
    {
        let cs = chars_of(ids);
        proof { reveal_strlit("all"); }
        if cs.len() == 3 && cs[0] == 'a' && cs[1] == 'l' && cs[2] == 'l' {
            proof { assert(ids@ =~= "all"@); }
            if task_count == 0 {
                return Err(TaskError::EmptyTree);
            }
            let ghost want = range_ids(seq![1usize], seq![task_count]);
            let mut out: Vec<Vec<usize>> = Vec::new();
            let mut k: usize = 0;
            while k < task_count
                invariant
                    k <= task_count,
                    paths_view(out@) =~= Seq::new(k as nat, |j: int| seq![(j + 1) as usize]),
                decreases task_count - k,
            {
                let mut one: Vec<usize> = Vec::new();
                one.push(k + 1);
                let ghost before = paths_view(out@);
                let ghost ov = one@;
                out.push(one);
                proof {
                    assert(ov =~= seq![(k + 1) as usize]);
                    assert(paths_view(out@) =~= before.push(ov));
                }
                k = k + 1;
            }
            proof {
                let all = Seq::new(task_count as nat, |j: int| seq![(j + 1) as usize]);
                if task_count == 1 {
                    assert(want =~= seq![seq![1usize]]);
                } else {
                    assert(want.len() == all.len());
                    assert forall|j: int| 0 <= j < all.len() implies want[j] == all[j] by {
                        if j == 0 {
                        } else if j == all.len() - 1 {
                        } else {
                            assert(want[j] == seq![(1 + 1 + (j - 1)) as usize]);
                        }
                    }
                }
                assert(paths_view(out@) =~= want);
            }
            return Ok(list_string(&out));
        }
        proof {
            if ids@ == "all"@ {
                assert(cs@[0] == 'a' && cs@[1] == 'l' && cs@[2] == 'l');
            }
        }
        let mut k: usize = 0;
        while k < cs.len() && k + 1 < cs.len() && !(cs[k] == '.' && cs[k + 1] == '.')
            invariant
                cs@ == ids@,
                k <= cs.len(),
                range_dots(ids@, 0) == range_dots(ids@, k as int),
            decreases cs.len() - k,
        {
            k = k + 1;
        }
        if k < cs.len() && k + 1 < cs.len() {
            return Cli::parse_id_range(ids);
        }
        if has_comma(&cs) {
            return Cli::parse_id_list(ids);
        }
        Ok(ids.to_owned())
    }
}

/// Two ascending id sequences holding the same ids are equal.
proof fn lemma_ascending_unique(a: Seq<Seq<usize>>, b: Seq<Seq<usize>>)
    requires
        ascending(a),
        ascending(b),
        a.to_set() == b.to_set(),
    ensures
        a == b,
    decreases a.len(),
{
    if a.len() == 0 {
        if b.len() > 0 {
            assert(b.to_set().contains(b[0]));
        }
        return;
    }
    assert(a.to_set().contains(a[0]));
    assert(b.len() > 0) by {
        if b.len() == 0 {
            assert(b.to_set() =~= Set::<Seq<usize>>::empty());
        }
    }
    assert(b.to_set().contains(b[0]));
    let i = choose|i: int| 0 <= i < a.len() && a[i] == b[0];
    let j = choose|j: int| 0 <= j < b.len() && b[j] == a[0];
    lemma_path_lt_total(a[0], b[0]);
    if a[0] != b[0] {
        assert(i > 0 && j > 0);
        assert(path_lt(a[0], a[i]));
        assert(path_lt(b[0], b[j]));
    }
    let (a1, b1) = (a.drop_first(), b.drop_first());
    assert forall|x: int, y: int| 0 <= x < y < a1.len() implies path_lt(#[trigger] a1[x], #[trigger] a1[y]) by {
        assert(a1[x] == a[x + 1] && a1[y] == a[y + 1]);
    }
    assert forall|x: int, y: int| 0 <= x < y < b1.len() implies path_lt(#[trigger] b1[x], #[trigger] b1[y]) by {
        assert(b1[x] == b[x + 1] && b1[y] == b[y + 1]);
    }
    assert(a1.to_set() =~= b1.to_set()) by {
        assert forall|e: Seq<usize>| a1.to_set().contains(e) implies b1.to_set().contains(e) by {
            let x = choose|x: int| 0 <= x < a1.len() && a1[x] == e;
            assert(path_lt(a[0], a[x + 1]));
            lemma_path_lt_total(a[0], a[0]);
            assert(a.to_set().contains(e));
            let y = choose|y: int| 0 <= y < b.len() && b[y] == e;
            assert(y != 0);
            assert(b1[y - 1] == e);
        }
        assert forall|e: Seq<usize>| b1.to_set().contains(e) implies a1.to_set().contains(e) by {
            let y = choose|y: int| 0 <= y < b1.len() && b1[y] == e;
            assert(path_lt(b[0], b[y + 1]));
            lemma_path_lt_total(b[0], b[0]);
            assert(b.to_set().contains(e));
            let x = choose|x: int| 0 <= x < a.len() && a[x] == e;
            assert(x != 0);
            assert(a1[x - 1] == e);
        }
    }
    lemma_ascending_unique(a1, b1);
    assert(a =~= seq![a[0]] + a1);
    assert(b =~= seq![b[0]] + b1);
}

} // verus!
