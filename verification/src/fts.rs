//! Text normalization for full-text search.
//!
//! Stored tag text and free-text search queries are both passed through the
//! same normalization before any matching, so indexing and querying share one
//! canonical alphabet: apostrophes are removed (so contractions stay a single
//! token), every other character that is not an ASCII letter, digit or comma
//! becomes a space, runs of whitespace collapse to a single space, and
//! leading and trailing whitespace is trimmed.

use vstd::prelude::*;
use vstd::string::*;

verus! {

/// A character that survives normalization unchanged: an ASCII letter, an
/// ASCII digit, or a comma.
pub open spec fn is_fts_kept_char(c: char) -> bool {
    ||| 97 <= c as u32 <= 122  // 'a' ..= 'z'
    ||| 65 <= c as u32 <= 90  // 'A' ..= 'Z'
    ||| 48 <= c as u32 <= 57  // '0' ..= '9'
    ||| c == ','
}

/// One step of the normalization machine. `acc` is the cleaned text built so
/// far; `pending` records whether a separating space is owed before the next
/// kept character. Apostrophes disappear without leaving a separator; any
/// other non-kept character only sets `pending` (and only once `acc` is
/// non-empty, so leading whitespace is dropped).
pub open spec fn fts_step(acc: Seq<char>, pending: bool, c: char) -> (Seq<char>, bool) {
    if c == '\'' {
        (acc, pending)
    } else if is_fts_kept_char(c) {
        (if pending { acc.push(' ').push(c) } else { acc.push(c) }, false)
    } else {
        (acc, acc.len() > 0)
    }
}

/// The normalization machine run over all of `s`, left to right.
pub open spec fn fts_machine(s: Seq<char>) -> (Seq<char>, bool)
    decreases s.len(),
{
    if s.len() == 0 {
        (Seq::<char>::empty(), false)
    } else {
        let r = fts_machine(s.drop_last());
        fts_step(r.0, r.1, s.last())
    }
}

/// The canonical search-safe form of `s`.
pub open spec fn fts_clean_spec(s: Seq<char>) -> Seq<char> {
    fts_machine(s).0
}

/// Every character is a kept character or a space, the text does not start
/// with a space, and no two spaces are adjacent. (A trailing space is still
/// allowed.)
pub open spec fn fts_semi_canonical(s: Seq<char>) -> bool {
    &&& forall|i: int| 0 <= i < s.len() ==> is_fts_kept_char(#[trigger] s[i]) || s[i] == ' '
    &&& (s.len() > 0 ==> s[0] != ' ')
    &&& forall|i: int| 0 <= i < s.len() - 1 ==> !(#[trigger] s[i] == ' ' && s[i + 1] == ' ')
}

/// Exactly the image of `fts_clean_spec`: semi-canonical text that also does
/// not end with a space.
pub open spec fn fts_canonical(s: Seq<char>) -> bool {
    fts_semi_canonical(s) && (s.len() > 0 ==> s[s.len() - 1] != ' ')
}

/// The machine only ever produces canonical text, and owes a separator only
/// once it has produced something.
pub proof fn lemma_fts_machine_shape(s: Seq<char>)
    ensures
        fts_canonical(fts_machine(s).0),
        fts_machine(s).1 ==> fts_machine(s).0.len() > 0,
    decreases s.len(),
{
    if s.len() > 0 {
        lemma_fts_machine_shape(s.drop_last());
        let acc = fts_machine(s.drop_last()).0;
        let pending = fts_machine(s.drop_last()).1;
        let c = s.last();
        if c != '\'' && is_fts_kept_char(c) {
            if pending {
                assert(fts_canonical(acc.push(' ').push(c)));
            } else {
                assert(fts_canonical(acc.push(c)));
            }
        }
    }
}

/// On semi-canonical text the machine changes nothing except for dropping a
/// trailing space (which it records as still pending).
pub proof fn lemma_fts_machine_fixed(s: Seq<char>)
    requires
        fts_semi_canonical(s),
    ensures
        fts_machine(s).0 == (if s.len() > 0 && s[s.len() - 1] == ' ' {
            s.drop_last()
        } else {
            s
        }),
        fts_machine(s).1 == (s.len() > 0 && s[s.len() - 1] == ' '),
    decreases s.len(),
{
    if s.len() > 0 {
        let v = s.drop_last();
        assert(fts_semi_canonical(v));
        lemma_fts_machine_fixed(v);
        let c = s.last();
        assert(is_fts_kept_char(c) || c == ' ');
        if is_fts_kept_char(c) {
            if v.len() > 0 && v[v.len() - 1] == ' ' {
                // the machine held back the trailing space of `v` and now
                // re-emits it before `c`
                assert(v.drop_last().push(' ') =~= v);
                assert(v.push(c) =~= s);
            } else {
                assert(v.push(c) =~= s);
            }
        } else {
            // `c` is a space; semi-canonical text has no leading space and no
            // two adjacent spaces, so `v` is non-empty and does not end in one
            assert(v.len() > 0);
            assert(v[v.len() - 1] != ' ');
        }
    }
}

/// Normalization is idempotent: cleaning already-cleaned text changes nothing.
pub proof fn lemma_fts_clean_idempotent(s: Seq<char>)
    ensures
        fts_clean_spec(fts_clean_spec(s)) == fts_clean_spec(s),
{
    lemma_fts_machine_shape(s);
    lemma_fts_machine_fixed(fts_clean_spec(s));
}

fn is_kept_char(c: char) -> (b: bool)
    ensures
        b == is_fts_kept_char(c),
{
    let u = c as u32;
    (97 <= u && u <= 122) || (65 <= u && u <= 90) || (48 <= u && u <= 57) || c == ','
}

/// Normalize free text into its canonical search-safe form.
pub fn fts_clean_text(text: &str) -> (r: String)
    ensures
        r@ == fts_clean_spec(text@),
{
    let n: usize = text.unicode_len();
    let mut out = String::new();
    let mut pending: bool = false;
    let mut i: usize = 0;
    while i < n
        invariant
            n == text@.len(),
            i <= n,
            out@ == fts_machine(text@.subrange(0, i as int)).0,
            pending == fts_machine(text@.subrange(0, i as int)).1,
        decreases n - i,
    {
        let c = text.get_char(i);
        proof {
            assert(text@.subrange(0, (i + 1) as int).drop_last() =~= text@.subrange(0, i as int));
            assert(text@.subrange(0, (i + 1) as int).last() == c);
        }
        if c == '\'' {
            // apostrophes are removed outright, so contractions stay one token
        } else if is_kept_char(c) {
            if pending {
                out.push(' ');
            }
            out.push(c);
            pending = false;
        } else {
            pending = !out.as_str().is_empty();
        }
        i += 1;
    }
    proof {
        assert(text@.subrange(0, n as int) =~= text@);
    }
    out
}

/// Whether `needle` occurs contiguously inside `hay`. The empty sequence
/// occurs in everything.
pub open spec fn contains_seq(hay: Seq<char>, needle: Seq<char>) -> bool {
    exists|k: int|
        0 <= k <= hay.len() - needle.len() && #[trigger] hay.subrange(k, k + needle.len() as int)
            == needle
}

fn match_at(hay: &str, needle: &str, k: usize, n: usize, m: usize) -> (r: bool)
    requires
        n == hay@.len(),
        m == needle@.len(),
        k + m <= n,
    ensures
        r == (hay@.subrange(k as int, k as int + m as int) == needle@),
{
    let mut t: usize = 0;
    while t < m
        invariant
            n == hay@.len(),
            m == needle@.len(),
            k + m <= n,
            t <= m,
            forall|u: int| 0 <= u < t ==> hay@[k + u] == needle@[u],
        decreases m - t,
    {
        if hay.get_char(k + t) != needle.get_char(t) {
            proof {
                assert(hay@.subrange(k as int, k as int + m as int)[t as int] != needle@[t as int]);
            }
            return false;
        }
        t += 1;
    }
    proof {
        assert(hay@.subrange(k as int, k as int + m as int) =~= needle@);
    }
    true
}

/// Whether `needle` occurs contiguously inside `hay`.
pub fn contains_str(hay: &str, needle: &str) -> (r: bool)
    ensures
        r == contains_seq(hay@, needle@),
{
    let n: usize = hay.unicode_len();
    let m: usize = needle.unicode_len();
    if m > n {
        return false;
    }
    if m == 0 {
        proof {
            assert(hay@.subrange(0, 0 + needle@.len() as int) =~= needle@);
        }
        return true;
    }
    let mut k: usize = 0;
    while k <= n - m
        invariant
            n == hay@.len(),
            m == needle@.len(),
            1 <= m <= n,
            k <= n - m + 1,
            forall|k0: int|
                0 <= k0 < k ==> #[trigger] hay@.subrange(k0, k0 + needle@.len() as int)
                    != needle@,
        decreases n - m - k + 1,
    {
        if match_at(hay, needle, k, n, m) {
            return true;
        }
        k += 1;
    }
    false
}

/// Normalization offered directly on string types.
pub trait FtsCleanText {
    /// The view of the text being normalized.
    spec fn text_view(&self) -> Seq<char>;

    /// Normalize this text into its canonical search-safe form.
    fn fts_clean(&self) -> (r: String)
        ensures
            r@ == fts_clean_spec(self.text_view()),
    ;
}

impl FtsCleanText for String {
    open spec fn text_view(&self) -> Seq<char> {
        self@
    }

    fn fts_clean(&self) -> (r: String) {
        fts_clean_text(self.as_str())
    }
}

impl FtsCleanText for &str {
    open spec fn text_view(&self) -> Seq<char> {
        self@
    }

    fn fts_clean(&self) -> (r: String) {
        fts_clean_text(self)
    }
}

} // verus!
