//! Tab completion: which word is being completed, which candidates match it,
//! and the order in which they are offered.
//!
//! Listing directories and expanding glob patterns is left to the caller.

use vstd::prelude::*;
use vstd::string::{StrSliceExecFns, StringExecFns};
use crate::parser::strings_view;
use crate::text::{chars_of, is_prefix, split_on, starts_with, str_equals};

verus! {

broadcast use vstd::string::group_string_axioms;

// ---------------------------------------------------------------------------
// Lexicographic order of strings
// ---------------------------------------------------------------------------

/// `a` comes strictly before `b` in lexicographic order of code points, which
/// is the order of `String`'s `Ord` (byte order of UTF-8).
pub open spec fn seq_lt(a: Seq<char>, b: Seq<char>) -> bool
    decreases a.len(),
{
    if a.len() == 0 {
        b.len() > 0
    } else if b.len() == 0 {
        false
    } else if a[0] != b[0] {
        a[0] < b[0]
    } else {
        seq_lt(a.drop_first(), b.drop_first())
    }
}

pub proof fn lemma_seq_lt_irreflexive(a: Seq<char>)
    ensures
        !seq_lt(a, a),
    decreases a.len(),
{
    if a.len() > 0 {
        lemma_seq_lt_irreflexive(a.drop_first());
    }
}

pub proof fn lemma_seq_lt_transitive(a: Seq<char>, b: Seq<char>, c: Seq<char>)
    requires
        seq_lt(a, b),
        seq_lt(b, c),
    ensures
        seq_lt(a, c),
    decreases a.len(),
{
    if a.len() > 0 && b.len() > 0 && c.len() > 0 {
        if a[0] == b[0] && b[0] == c[0] {
            lemma_seq_lt_transitive(a.drop_first(), b.drop_first(), c.drop_first());
        }
    }
}

pub proof fn lemma_seq_lt_total(a: Seq<char>, b: Seq<char>)
    requires
        a != b,
    ensures
        seq_lt(a, b) || seq_lt(b, a),
    decreases a.len(),
{
    if a.len() > 0 && b.len() > 0 {
        if a[0] == b[0] {
            if a.drop_first() == b.drop_first() {
                assert(a =~= seq![a[0]] + a.drop_first());
                assert(b =~= seq![b[0]] + b.drop_first());
            }
            lemma_seq_lt_total(a.drop_first(), b.drop_first());
        }
    } else if a.len() == 0 && b.len() == 0 {
        assert(a =~= b);
    }
}

/// True when `a` comes strictly before `b`.
pub fn str_less(a: &str, b: &str) -> (r: bool)
    ensures
        r == seq_lt(a@, b@),
{
    let ca = chars_of(a);
    let cb = chars_of(b);
    let na = ca.len();
    let nb = cb.len();
    let mut i: usize = 0;
    assert(a@.skip(0) =~= a@);
    assert(b@.skip(0) =~= b@);
    while i < na && i < nb && ca[i] == cb[i]
        invariant
            ca@ == a@,
            cb@ == b@,
            na == a@.len(),
            nb == b@.len(),
            i <= na,
            i <= nb,
            seq_lt(a@.skip(i as int), b@.skip(i as int)) == seq_lt(a@, b@),
        decreases na - i,
    {
        assert(a@.skip(i as int).drop_first() =~= a@.skip(i + 1));
        assert(b@.skip(i as int).drop_first() =~= b@.skip(i + 1));
        i = i + 1;
    }
    if i == na {
        i < nb
    } else if i == nb {
        false
    } else {
        ca[i] < cb[i]
    }
}

// ---------------------------------------------------------------------------
// Sorting and removing duplicates
// ---------------------------------------------------------------------------

/// Each element comes strictly before every later one.
pub open spec fn strictly_sorted(s: Seq<Seq<char>>) -> bool {
    forall|i: int, j: int| 0 <= i < j < s.len() ==> seq_lt(#[trigger] s[i], #[trigger] s[j])
}

proof fn lemma_views_push(s: Seq<String>, x: String)
    ensures
        strings_view(s.push(x)) == strings_view(s).push(x@),
{
    assert(strings_view(s.push(x)) =~= strings_view(s).push(x@));
}

/// Adds `x` to the strictly sorted `r`, where it belongs, unless `r` holds it
/// already.
fn insert_unique(r: &mut Vec<String>, x: &String)
    requires
        strictly_sorted(strings_view(old(r)@)),
    ensures
        strictly_sorted(strings_view(final(r)@)),
        forall|y: Seq<char>| #[trigger] strings_view(final(r)@).contains(y) <==> (strings_view(old(r)@).contains(y) || y == x@),
{
    let ghost v0 = strings_view(r@);
    let len = r.len();
    let mut j: usize = 0;
    while j < len && str_less(r[j].as_str(), x.as_str())
        invariant
            len == r@.len(),
            v0 == strings_view(r@),
            j <= len,
            forall|k: int| 0 <= k < j ==> seq_lt(#[trigger] v0[k], x@),
        decreases len - j,
    {
        assert(v0[j as int] == r@[j as int]@);
        j = j + 1;
    }
    if j < len && str_equals(r[j].as_str(), x.as_str()) {
        assert(v0[j as int] == x@);
        assert forall|y: Seq<char>| #[trigger] v0.contains(y) <==> (v0.contains(y) || y == x@) by {
            if y == x@ {
                assert(v0[j as int] == y);
            }
        }
    } else {
        proof {
            if j < len {
                assert(v0[j as int] == r@[j as int]@);
                lemma_seq_lt_total(v0[j as int], x@);
                assert forall|k: int| j <= k < len implies seq_lt(x@, #[trigger] v0[k]) by {
                    if k > j {
                        lemma_seq_lt_transitive(x@, v0[j as int], v0[k]);
                    }
                }
            }
        }
        r.insert(j, x.clone());
        let ghost v1 = strings_view(r@);
        assert(v1 =~= v0.insert(j as int, x@));
        assert forall|a: int, b: int| 0 <= a < b < v1.len() implies seq_lt(#[trigger] v1[a], #[trigger] v1[b]) by {
            if a < j && b < j {
                assert(v1[a] == v0[a] && v1[b] == v0[b]);
            } else if a < j && b == j {
                assert(v1[a] == v0[a]);
            } else if a < j {
                assert(v1[a] == v0[a] && v1[b] == v0[b - 1]);
                lemma_seq_lt_transitive(v0[a], x@, v0[b - 1]);
            } else if a == j {
                assert(v1[b] == v0[b - 1]);
            } else {
                assert(v1[a] == v0[a - 1] && v1[b] == v0[b - 1]);
            }
        }
        assert forall|y: Seq<char>| #[trigger] v1.contains(y) <==> (v0.contains(y) || y == x@) by {
            if v1.contains(y) {
                let k = choose|k: int| 0 <= k < v1.len() && v1[k] == y;
                if k < j {
                    assert(v0[k] == y);
                } else if k > j {
                    assert(v0[k - 1] == y);
                }
            }
            if v0.contains(y) {
                let k = choose|k: int| 0 <= k < v0.len() && v0[k] == y;
                if k < j {
                    assert(v1[k] == y);
                } else {
                    assert(v1[k + 1] == y);
                }
            }
            if y == x@ {
                assert(v1[j as int] == y);
            }
        }
    }
}

proof fn lemma_drop_first_members(x: Seq<Seq<char>>)
    requires
        strictly_sorted(x),
        x.len() > 0,
    ensures
        strictly_sorted(x.drop_first()),
        forall|z: Seq<char>| #[trigger] x.drop_first().contains(z) <==> (x.contains(z) && z != x[0]),
{
    let t = x.drop_first();
    assert forall|i: int, j: int| 0 <= i < j < t.len() implies seq_lt(#[trigger] t[i], #[trigger] t[j]) by {
        assert(t[i] == x[i + 1] && t[j] == x[j + 1]);
    }
    assert forall|z: Seq<char>| #[trigger] t.contains(z) <==> (x.contains(z) && z != x[0]) by {
        if t.contains(z) {
            let k = choose|k: int| 0 <= k < t.len() && t[k] == z;
            assert(x[k + 1] == z);
            assert(seq_lt(x[0], x[k + 1]));
            lemma_seq_lt_irreflexive(z);
        }
        if x.contains(z) && z != x[0] {
            let k = choose|k: int| 0 <= k < x.len() && x[k] == z;
            assert(t[k - 1] == z);
        }
    }
}

/// A strictly sorted sequence is fixed by the strings it holds: two strictly
/// sorted sequences that hold the same strings are equal. So the candidates
/// that `finish` offers are those that a sort followed by removing repeats
/// gives.
pub proof fn law_sorted_unique_is_determined(x: Seq<Seq<char>>, y: Seq<Seq<char>>)
    requires
        strictly_sorted(x),
        strictly_sorted(y),
        forall|z: Seq<char>| #[trigger] x.contains(z) <==> y.contains(z),
    ensures
        x == y,
    decreases x.len(),
{
    if x.len() == 0 {
        if y.len() > 0 {
            assert(y.contains(y[0]));
            assert(x.contains(y[0]));
        }
        assert(x =~= y);
    } else {
        assert(x.contains(x[0]));
        assert(y.contains(x[0]));
        let m = choose|m: int| 0 <= m < y.len() && y[m] == x[0];
        assert(y.contains(y[0]));
        assert(x.contains(y[0]));
        let k = choose|k: int| 0 <= k < x.len() && x[k] == y[0];
        if m > 0 && k > 0 {
            assert(seq_lt(y[0], y[m]));
            assert(seq_lt(x[0], x[k]));
            lemma_seq_lt_transitive(x[0], y[0], x[0]);
            lemma_seq_lt_irreflexive(x[0]);
        }
        assert(x[0] == y[0]);
        lemma_drop_first_members(x);
        lemma_drop_first_members(y);
        assert forall|z: Seq<char>| #[trigger] x.drop_first().contains(z) <==> y.drop_first().contains(z) by {
            assert(x.drop_first().contains(z) <==> (x.contains(z) && z != x[0]));
            assert(y.drop_first().contains(z) <==> (y.contains(z) && z != y[0]));
        }
        law_sorted_unique_is_determined(x.drop_first(), y.drop_first());
        assert(x =~= seq![x[0]] + x.drop_first());
        assert(y =~= seq![y[0]] + y.drop_first());
    }
}

/// The candidates in lexicographic order, each once: the result holds exactly
/// the strings that `items` holds.
pub fn sorted_unique(items: &Vec<String>) -> (r: Vec<String>)
    ensures
        strictly_sorted(strings_view(r@)),
        forall|y: Seq<char>| #[trigger] strings_view(r@).contains(y) <==> strings_view(items@).contains(y),
{
    let n = items.len();
    let mut r: Vec<String> = Vec::new();
    let mut i: usize = 0;
    assert(strings_view(r@) =~= Seq::<Seq<char>>::empty());
    assert(strings_view(items@.take(0)) =~= Seq::<Seq<char>>::empty());
    while i < n
        invariant
            n == items@.len(),
            i <= n,
            strictly_sorted(strings_view(r@)),
            forall|y: Seq<char>| #[trigger] strings_view(r@).contains(y) <==> strings_view(items@.take(i as int)).contains(y),
        decreases n - i,
    {
        let ghost prev = strings_view(items@.take(i as int));
        insert_unique(&mut r, &items[i]);
        proof {
            let x = items@[i as int]@;
            assert(items@.take(i + 1) =~= items@.take(i as int).push(items@[i as int]));
            lemma_views_push(items@.take(i as int), items@[i as int]);
            let next = strings_view(items@.take(i + 1));
            assert forall|y: Seq<char>| #[trigger] next.contains(y) <==> (prev.contains(y) || y == x) by {
                if next.contains(y) {
                    let k = choose|k: int| 0 <= k < next.len() && next[k] == y;
                    if k < prev.len() {
                        assert(prev[k] == y);
                    }
                }
                if prev.contains(y) {
                    let k = choose|k: int| 0 <= k < prev.len() && prev[k] == y;
                    assert(next[k] == y);
                }
                if y == x {
                    assert(next[prev.len() as int] == y);
                }
            }
        }
        i = i + 1;
    }
    assert(items@.take(n as int) =~= items@);
    r
}


// ---------------------------------------------------------------------------
// The word under the cursor
// ---------------------------------------------------------------------------

/// Where the word that ends at byte `pos` starts: just after the last space
/// before `pos`, or at 0 when there is none.
pub open spec fn word_start(bytes: Seq<u8>, pos: int) -> int
    decreases pos,
{
    if pos <= 0 {
        0
    } else if bytes[pos - 1] == 0x20u8 {
        pos
    } else {
        word_start(bytes, pos - 1)
    }
}

/// The UTF-8 bytes of `s`.
pub open spec fn utf8_bytes(s: &str) -> Seq<u8> {
    vstd::string::StringSliceAdditionalSpecFns::spec_bytes(s)
}

/// What the word under the cursor is completed with.
#[derive(Debug, PartialEq, Eq, Clone, Copy)]
pub enum CompletionKind {
    /// The word is empty: nothing is offered.
    Nothing,
    /// The first word of the line: builtins and programs on `PATH`.
    Command,
    /// A later word: paths that start with it.
    Path,
}

/// The kind of completion for a word from `start` to `pos`.
pub open spec fn spec_kind(start: int, pos: int) -> CompletionKind {
    if start == pos {
        CompletionKind::Nothing
    } else if start == 0 {
        CompletionKind::Command
    } else {
        CompletionKind::Path
    }
}

/// The line editor's helper: it completes commands and paths.
pub struct ShellHelper;

impl ShellHelper {
    /// For the cursor at byte `pos` of `line`: where the word being completed
    /// starts, and what it is completed with.
    pub fn completion_target(&self, line: &str, pos: usize) -> (r: (usize, CompletionKind))
        requires
            pos <= utf8_bytes(line).len(),
            vstd::utf8::is_char_boundary(utf8_bytes(line), pos as int),
        ensures
            r.0 == word_start(utf8_bytes(line), pos as int),
            r.1 == spec_kind(r.0 as int, pos as int),
    {
        let bytes = line.as_bytes();
        let mut j: usize = pos;
        while j > 0 && bytes[j - 1] != 0x20u8
            invariant
                bytes@ == utf8_bytes(line),
                j <= pos <= bytes@.len(),
                word_start(bytes@, j as int) == word_start(bytes@, pos as int),
            decreases j,
        {
            j = j - 1;
        }
        let kind = if j == pos {
            CompletionKind::Nothing
        } else if j == 0 {
            CompletionKind::Command
        } else {
            CompletionKind::Path
        };
        (j, kind)
    }

    /// The candidates as they are offered: sorted, each once.
    pub fn finish(&self, candidates: &Vec<String>) -> (r: Vec<String>)
        ensures
            strictly_sorted(strings_view(r@)),
            forall|y: Seq<char>| #[trigger] strings_view(r@).contains(y) <==> strings_view(candidates@).contains(y),
    {
        sorted_unique(candidates)
    }
}

// ---------------------------------------------------------------------------
// Candidates
// ---------------------------------------------------------------------------

/// The names among `names` that start with `p`, in their order.
pub open spec fn prefix_matches(names: Seq<Seq<char>>, p: Seq<char>) -> Seq<Seq<char>>
    decreases names.len(),
{
    if names.len() == 0 {
        Seq::empty()
    } else {
        let prev = prefix_matches(names.drop_last(), p);
        if is_prefix(p, names.last()) {
            prev.push(names.last())
        } else {
            prev
        }
    }
}

/// The names that start with `partial`, in their order.
pub fn names_with_prefix(names: &Vec<String>, partial: &str) -> (r: Vec<String>)
    ensures
        strings_view(r@) == prefix_matches(strings_view(names@), partial@),
{
    let ghost nv = strings_view(names@);
    let n = names.len();
    let mut r: Vec<String> = Vec::new();
    let mut i: usize = 0;
    assert(nv.take(0) =~= Seq::<Seq<char>>::empty());
    assert(strings_view(r@) =~= Seq::<Seq<char>>::empty());
    while i < n
        invariant
            n == names@.len(),
            nv == strings_view(names@),
            i <= n,
            strings_view(r@) == prefix_matches(nv.take(i as int), partial@),
        decreases n - i,
    {
        assert(nv.take(i + 1).drop_last() =~= nv.take(i as int));
        assert(nv.take(i + 1).last() == names@[i as int]@);
        if starts_with(names[i].as_str(), partial) {
            let ghost before = r@;
            r.push(names[i].clone());
            assert(strings_view(r@) =~= strings_view(before).push(names@[i as int]@));
        }
        i = i + 1;
    }
    assert(nv.take(n as int) =~= nv);
    r
}

/// The commands that the shell runs itself, in the order they are offered.
pub open spec fn builtin_names() -> Seq<Seq<char>> {
    seq![
        seq!['c', 'd'],
        seq!['p', 'w', 'd'],
        seq!['e', 'x', 'i', 't'],
        seq!['e', 'x', 'p', 'o', 'r', 't'],
    ]
}

/// The builtin commands that start with `partial`.
pub fn builtin_candidates(partial: &str) -> (r: Vec<String>)
    ensures
        strings_view(r@) == prefix_matches(builtin_names(), partial@),
{
    let mut names: Vec<String> = Vec::new();
    names.push(String::from_str("cd"));
    names.push(String::from_str("pwd"));
    names.push(String::from_str("exit"));
    names.push(String::from_str("export"));
    proof {
        reveal_strlit("cd");
        reveal_strlit("pwd");
        reveal_strlit("exit");
        reveal_strlit("export");
        assert("cd"@ =~= builtin_names()[0]);
        assert("pwd"@ =~= builtin_names()[1]);
        assert("exit"@ =~= builtin_names()[2]);
        assert("export"@ =~= builtin_names()[3]);
        assert(strings_view(names@) =~= builtin_names());
    }
    names_with_prefix(&names, partial)
}

/// The directories named in a `PATH` value: its parts between `:`.
pub fn path_dirs(path_var: &str) -> (r: Vec<String>)
    ensures
        strings_view(r@) == split_on(path_var@, ':'),
{
    let cs = chars_of(path_var);
    let n = cs.len();
    let mut done: Vec<String> = Vec::new();
    let mut current = String::new();
    let mut i: usize = 0;
    assert(path_var@.take(0) =~= Seq::<char>::empty());
    while i < n
        invariant
            n == cs@.len(),
            cs@ == path_var@,
            i <= n,
            done@.len() + 1 == split_on(path_var@.take(i as int), ':').len(),
            forall|j: int| 0 <= j < done@.len() ==> (#[trigger] done@[j])@ == split_on(path_var@.take(i as int), ':')[j],
            current@ == split_on(path_var@.take(i as int), ':')[done@.len() as int],
        decreases n - i,
    {
        assert(path_var@.take(i + 1).drop_last() =~= path_var@.take(i as int));
        assert(path_var@.take(i + 1).last() == cs@[i as int]);
        let c = cs[i];
        if c == ':' {
            let ghost old_done = done@;
            done.push(current);
            current = String::new();
            assert forall|j: int| 0 <= j < done@.len() implies (#[trigger] done@[j])@ == split_on(path_var@.take(i + 1), ':')[j] by {
                if j < old_done.len() {
                    assert(done@[j] == old_done[j]);
                }
            }
        } else {
            current.push(c);
        }
        i = i + 1;
    }
    assert(path_var@.take(n as int) =~= path_var@);
    done.push(current);
    assert(strings_view(done@) =~= split_on(path_var@, ':'));
    done
}


/// The matches of each listing in turn, in order.
pub open spec fn listing_matches(listings: Seq<Seq<Seq<char>>>, p: Seq<char>) -> Seq<Seq<char>>
    decreases listings.len(),
{
    if listings.len() == 0 {
        Seq::empty()
    } else {
        listing_matches(listings.drop_last(), p) + prefix_matches(listings.last(), p)
    }
}

pub open spec fn listings_view(v: Seq<Vec<String>>) -> Seq<Seq<Seq<char>>> {
    v.map_values(|l: Vec<String>| strings_view(l@))
}

/// The candidates for a command name: the matching builtins, then the
/// matching names of each directory listing, in the order of the listings.
pub fn command_candidates(partial: &str, listings: &Vec<Vec<String>>) -> (r: Vec<String>)
    ensures
        strings_view(r@) == prefix_matches(builtin_names(), partial@) + listing_matches(
            listings_view(listings@),
            partial@,
        ),
{
    let ghost lv = listings_view(listings@);
    let mut r = builtin_candidates(partial);
    let ghost b = strings_view(r@);
    let n = listings.len();
    let mut i: usize = 0;
    assert(lv.take(0) =~= Seq::<Seq<Seq<char>>>::empty());
    assert(b + listing_matches(lv.take(0), partial@) =~= b);
    while i < n
        invariant
            n == listings@.len(),
            lv == listings_view(listings@),
            i <= n,
            strings_view(r@) == b + listing_matches(lv.take(i as int), partial@),
        decreases n - i,
    {
        let mut found = names_with_prefix(&listings[i], partial);
        let ghost before = strings_view(r@);
        let ghost fv = strings_view(found@);
        r.append(&mut found);
        assert(lv.take(i + 1).drop_last() =~= lv.take(i as int));
        assert(lv.take(i + 1).last() == strings_view(listings@[i as int]@));
        assert(strings_view(r@) =~= before + fv);
        assert(b + listing_matches(lv.take(i + 1), partial@) =~= (b + listing_matches(lv.take(i as int), partial@)) + fv);
        i = i + 1;
    }
    assert(lv.take(n as int) =~= lv);
    r
}

/// The glob pattern for paths that start with `partial`: `partial` followed by `*`.
pub fn glob_pattern(partial: &str) -> (r: String)
    ensures
        r@ == partial@.push('*'),
{
    let mut r = String::from_str(partial);
    r.push('*');
    r
}

/// A path as it is offered: a directory gets a trailing `/`.
pub fn path_candidate(path: String, is_dir: bool) -> (r: String)
    ensures
        r@ == if is_dir {
            path@.push('/')
        } else {
            path@
        },
{
    let mut r = path;
    if is_dir {
        r.push('/');
    }
    r
}

} // verus!
