//! Completions for a shell prompt.
use vstd::prelude::*;
use crate::args::{is_option, non_option_copies, non_options};
use crate::cli::Cli;
use crate::task_file::TaskFile;
use crate::text::{chars_of, joined, same_text, strings_view};
use crate::tree::{lemma_subtasks_view, view_list, TaskView};

verus! {

/// Where `s` first holds `c`, looking from `k` on; `s.len()` if nowhere.
pub open spec fn find_char(s: Seq<char>, c: char, k: int) -> int
    decreases s.len() - k,
{
    if k < 0 || k >= s.len() {
        s.len() as int
    } else if s[k] == c {
        k
    } else {
        find_char(s, c, k + 1)
    }
}

/// The value of a run of decimal digits.
pub open spec fn digits_value(s: Seq<char>) -> nat
    decreases s.len(),
{
    if s.len() == 0 {
        0
    } else {
        digits_value(s.drop_last()) * 10 + (s.last() as u32 - '0' as u32) as nat
    }
}

/// The position a prompt gives: its decimal value where it is one within
/// `usize`, else 0.
pub open spec fn position_of(t: Seq<char>) -> nat {
    if t.len() > 0 && (forall|i: int| 0 <= i < t.len() ==> '0' <= #[trigger] t[i] && t[i] <= '9')
        && digits_value(t) <= usize::MAX {
        digits_value(t)
    } else {
        0
    }
}

/// The word at `i`, or the empty text.
pub open spec fn arg_at(a: Seq<Seq<char>>, i: int) -> Seq<char> {
    if 0 <= i < a.len() { a[i] } else { Seq::empty() }
}

/// `m` without each `=` and the word after it.
pub open spec fn without_assignments(m: Seq<Seq<char>>) -> Seq<Seq<char>>
    decreases m.len(),
{
    if m.len() == 0 {
        m
    } else if m[0] == "="@ {
        if m.len() == 1 { Seq::empty() } else { without_assignments(m.skip(2)) }
    } else {
        seq![m[0]] + without_assignments(m.drop_first())
    }
}

/// The words of the prompt that are not options, with each `=` after the
/// first word taken out together with the word that follows it.
pub open spec fn plain_words(a: Seq<Seq<char>>) -> Seq<Seq<char>> {
    let n = non_options(a);
    if n.len() == 0 { n } else { seq![n[0]] + without_assignments(n.drop_first()) }
}

pub open spec fn command_words() -> Seq<char> {
    "print add do undo move swap append edit delete clear"@
}

/// The completions for the prompt `a`, whose last word is
/// `<current word>,<position>`; `texts` are the texts of the root tasks.
pub open spec fn completions_of(a: Seq<Seq<char>>, texts: Seq<Seq<char>>) -> Result<Seq<char>, Seq<char>> {
    if a.len() == 0 {
        Ok(Seq::empty())
    } else {
        let last = a.last();
        let c1 = find_char(last, ',', 0);
        let cw = last.take(c1);
        let after = last.skip(c1 + 1);
        let position = position_of(after.take(find_char(after, ',', 0)));
        let before = arg_at(a, position - 1);
        let opt = if cw == "="@ { before } else { arg_at(a, position - 2) };
        let words = plain_words(a);
        if c1 == last.len() {
            Err("Missing `$current_word,$position`"@)
        } else if position == 0 {
            Err("Current word position is not usize"@)
        } else if (cw == "="@ || before == "="@) && (opt == "-t"@ || opt == "--add-to"@) {
            Ok("top bottom"@)
        } else if cw.len() >= 2 && cw[0] == '-' && cw[1] == '-' {
            Ok("--help --version --no-color --all --add-to --subtask --generate-shell-completions"@)
        } else if is_option(cw) {
            Ok("-h -v -c -a -t -s"@)
        } else if position == 1 || (words.len() > 1 && words[1] == cw) {
            Ok(command_words())
        } else if words.len() > 3 && words[1] == "edit"@ && words[3].len() == 0 {
            let id = position_of(words[2]);
            if 1 <= id <= texts.len() {
                Ok("'"@ + texts[id - 1] + "'"@)
            } else {
                Ok(Seq::empty())
            }
        } else {
            Ok(Seq::empty())
        }
    }
}

/// The texts of the tasks in a list.
pub open spec fn texts_of(ts: Seq<TaskView>) -> Seq<Seq<char>> {
    ts.map_values(|t: TaskView| t.contents)
}

/// Where `cs` first holds `c` from `k` on, or `cs.len()`.
fn find(cs: &Vec<char>, c: char, k: usize) -> (r: usize)
    requires
        k <= cs.len(),
    ensures
        r == find_char(cs@, c, k as int),
        k <= r <= cs.len(),
        r < cs.len() ==> cs@[r as int] == c,
{
    let mut i = k;
    while i < cs.len() && cs[i] != c
        invariant
            k <= i <= cs.len(),
            find_char(cs@, c, k as int) == find_char(cs@, c, i as int),
        decreases cs.len() - i,
    {
        i = i + 1;
    }
    i
}

/// The position that `cs[lo..hi]` gives; see `position_of`.
fn read_position(cs: &Vec<char>, lo: usize, hi: usize) -> (r: usize)
    requires
        lo <= hi <= cs.len(),
    ensures
        r == position_of(cs@.subrange(lo as int, hi as int)),
{
    let ghost t = cs@.subrange(lo as int, hi as int);
    if lo == hi {
        return 0;
    }
    let mut v: usize = 0;
    let mut i: usize = lo;
    while i < hi
        invariant
            lo <= i <= hi <= cs.len(),
            t == cs@.subrange(lo as int, hi as int),
            forall|j: int| 0 <= j < i - lo ==> '0' <= #[trigger] t[j] && t[j] <= '9',
            v == digits_value(t.take(i - lo)),
        decreases hi - i,
    {
        let c = cs[i];
        proof { assert(t.take(i - lo + 1).drop_last() =~= t.take(i - lo)); }
        if !('0' <= c && c <= '9') {
            proof { assert(!('0' <= t[i - lo] && t[i - lo] <= '9')); }
            return 0;
        }
        let d = (c as u32 - '0' as u32) as usize;
        if v > (usize::MAX - d) / 10 {
            proof {
                assert(v * 10 + d > usize::MAX) by (nonlinear_arith)
                    requires v > (usize::MAX - d) / 10, d <= 9;
                assert(t.take(i - lo + 1).last() == t[i - lo]);
                assert(digits_value(t.take(i - lo + 1)) == v * 10 + d);
                lemma_digits_grow(t, i - lo + 1, t.len() as int);
                assert(t.take(t.len() as int) =~= t);
            }
            return 0;
        }
        assert(v * 10 + d <= usize::MAX) by (nonlinear_arith)
            requires v <= (usize::MAX - d) / 10, d <= 9;
        v = v * 10 + d;
        i = i + 1;
    }
    proof { assert(t.take(hi - lo) =~= t); }
    v
}

/// Over digits, a longer prefix has a value at least as large.
proof fn lemma_digits_grow(t: Seq<char>, j: int, k: int)
    requires
        0 <= j <= k <= t.len(),
    ensures
        digits_value(t.take(j)) <= digits_value(t.take(k)),
    decreases k - j,
{
    if j < k {
        lemma_digits_grow(t, j, k - 1);
        assert(t.take(k).drop_last() =~= t.take(k - 1));
        assert(digits_value(t.take(k - 1)) <= digits_value(t.take(k - 1)) * 10) by (nonlinear_arith);
    }
}

/// `m` without each `=` and the word after it.
fn strip_assignments(m: &Vec<String>, from: usize) -> (r: Vec<String>)
    requires
        from <= m.len(),
    ensures
        strings_view(r@) == without_assignments(strings_view(m@).skip(from as int)),
{
    let ghost mv = strings_view(m@);
    let mut out: Vec<String> = Vec::new();
    let mut i = from;
    while i < m.len()
        invariant
            from <= i <= m.len(),
            mv == strings_view(m@),
            strings_view(out@) + without_assignments(mv.skip(i as int)) == without_assignments(mv.skip(from as int)),
        decreases m.len() - i,
    {
        let ghost rest = mv.skip(i as int);
        if same_text(m[i].as_str(), "=") {
            if i + 1 == m.len() {
                proof { assert(without_assignments(rest) =~= Seq::<Seq<char>>::empty()); assert(mv.skip(m.len() as int) =~= Seq::<Seq<char>>::empty()); }
                i = i + 1;
            } else {
                proof { assert(rest.skip(2) =~= mv.skip(i + 2)); }
                i = i + 2;
            }
        } else {
            let w = m[i].clone();
            let ghost before = strings_view(out@);
            out.push(w);
            proof {
                assert(rest.drop_first() =~= mv.skip(i + 1));
                assert(strings_view(out@) =~= before.push(mv[i as int]));
                assert(seq![mv[i as int]] + without_assignments(mv.skip(i + 1)) == without_assignments(rest));
                assert(strings_view(out@) + without_assignments(mv.skip(i + 1)) =~= before + without_assignments(rest));
            }
            i = i + 1;
        }
    }
    proof {
        assert(mv.skip(m.len() as int) =~= Seq::<Seq<char>>::empty());
        assert(strings_view(out@) + Seq::<Seq<char>>::empty() =~= strings_view(out@));
    }
    out
}

/// The word at `i` of `a`, or an empty string.
fn arg_copy(a: &Vec<String>, i: usize) -> (r: String)
    ensures
        r@ == arg_at(strings_view(a@), i as int),
{
    if i < a.len() {
        a[i].clone()
    } else {
        String::new()
    }
}

impl Cli {
    /// Completions for a shell prompt: `args` are its words, the last one
    /// `<current word>,<position>`; `tf` gives the text of a task that `edit`
    /// is about to change. See `completions_of`.
    pub fn generate_shell_completions(args: Vec<String>, tf: &TaskFile) -> (r: Result<String, &'static str>)
        ensures
            match completions_of(strings_view(args@), texts_of(tf@)) {
                Ok(t) => r is Ok && r->Ok_0@ == t,
                Err(m) => r is Err && r->Err_0@ == m,
            },
    {
        let ghost a = strings_view(args@);
        if args.len() == 0 {
            return Ok(String::new());
        }
        let last = chars_of(args[args.len() - 1].as_str());
        proof { assert(last@ == a.last()); }
        let c1 = find(&last, ',', 0);
        if c1 == last.len() {
            return Err("Missing `$current_word,$position`");
        }
        let c2 = find(&last, ',', c1 + 1);
        let position = read_position(&last, c1 + 1, c2);
        proof {
            let after = last@.skip(c1 + 1);
            lemma_find_shift(last@, ',', c1 + 1);
            assert(after.take(find_char(after, ',', 0)) =~= last@.subrange(c1 + 1, c2 as int));
        }
        if position == 0 {
            return Err("Current word position is not usize");
        }
        let mut cw_chars: Vec<char> = Vec::new();
        let mut k: usize = 0;
        while k < c1
            invariant
                k <= c1 <= last.len(),
                cw_chars@ == last@.take(k as int),
            decreases c1 - k,
        {
            cw_chars.push(last[k]);
            proof { assert(last@.take(k + 1) =~= last@.take(k as int).push(last@[k as int])); }
            k = k + 1;
        }
        let cw = crate::text::string_of(&cw_chars);
        let cw_str = cw.as_str();
        let before = arg_copy(&args, position - 1);
        let cw_is_eq = same_text(cw_str, "=");
        let opt = if cw_is_eq {
            arg_copy(&args, position - 1)
        } else if position >= 2 {
            arg_copy(&args, position - 2)
        } else {
            String::new()
        };
        if (cw_is_eq || same_text(before.as_str(), "=")) && (same_text(opt.as_str(), "-t") || same_text(opt.as_str(), "--add-to")) {
            return Ok("top bottom".to_owned());
        }
        if cw_chars.len() >= 2 && cw_chars[0] == '-' && cw_chars[1] == '-' {
            return Ok("--help --version --no-color --all --add-to --subtask --generate-shell-completions".to_owned());
        }
        if cw_chars.len() >= 1 && cw_chars[0] == '-' {
            return Ok("-h -v -c -a -t -s".to_owned());
        }
        let plain = non_option_copies(&args);
        let mut words: Vec<String> = Vec::new();
        if plain.len() > 0 {
            words = strip_assignments(&plain, 1);
            let first = plain[0].clone();
            words.insert(0, first);
            proof {
                let n = strings_view(plain@);
                assert(strings_view(words@) =~= seq![n[0]] + without_assignments(n.drop_first()));
                assert(n.skip(1) =~= n.drop_first());
            }
        }
        proof { assert(strings_view(words@) =~= plain_words(a)); }
        if position == 1 || (words.len() > 1 && same_text(words[1].as_str(), cw_str)) {
            return Ok("print add do undo move swap append edit delete clear".to_owned());
        }
        if words.len() > 3 && same_text(words[1].as_str(), "edit") && words[3].as_str().is_empty() {
            let id_chars = chars_of(words[2].as_str());
            proof { assert(id_chars@.subrange(0, id_chars@.len() as int) =~= id_chars@); }
            let id = read_position(&id_chars, 0, id_chars.len());
            if 1 <= id && id <= tf.tasks.len() {
                proof { lemma_subtasks_view(tf.tasks@[id - 1]); }
                return Ok(joined("'", tf.tasks[id - 1].contents.as_str(), "'"));
            }
            return Ok(String::new());
        }
        Ok(String::new())
    }
}

/// Looking for `c` from `k` on is looking for it in what follows `k`.
proof fn lemma_find_shift(s: Seq<char>, c: char, k: int)
    requires
        0 <= k <= s.len(),
    ensures
        find_char(s.skip(k), c, 0) == find_char(s, c, k) - k,
    decreases s.len() - k,
{
    lemma_find_from(s, c, k, 0);
}

proof fn lemma_find_from(s: Seq<char>, c: char, k: int, j: int)
    requires
        0 <= k <= s.len(),
        0 <= j <= s.len() - k,
    ensures
        find_char(s.skip(k), c, j) == find_char(s, c, k + j) - k,
    decreases s.len() - k - j,
{
    if j < s.len() - k {
        lemma_find_from(s, c, k, j + 1);
    }
}

} // verus!
