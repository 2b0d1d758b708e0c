//! Locating separator markers and splicing a fragment after one.
//!
//! The changelog document's only structurally significant token is the
//! separator line `- - -`. Insertion anchors at the first (prepend) or
//! last (append) occurrence, places the fragment right after it, and
//! closes the fragment with a fresh marker of its own.

use vstd::prelude::*;

verus! {

/// The separator marker that delimits fragments in the document.
pub open spec fn marker() -> Seq<char> {
    "- - -"@
}

/// The marker occurs in `s` starting at position `i`.
pub open spec fn occurs_at(s: Seq<char>, i: int) -> bool {
    &&& 0 <= i
    &&& i + 5 <= s.len()
    &&& s.subrange(i, i + 5) == marker()
}

/// The marker occurs somewhere in `s`.
pub open spec fn has_marker(s: Seq<char>) -> bool {
    exists|i: int| occurs_at(s, i)
}

/// `i` is the position of the first marker occurrence in `s`.
pub open spec fn is_first_marker(s: Seq<char>, i: int) -> bool {
    &&& occurs_at(s, i)
    &&& forall|j: int| occurs_at(s, j) ==> i <= j
}

/// `i` is the position of the last marker occurrence in `s`.
pub open spec fn is_last_marker(s: Seq<char>, i: int) -> bool {
    &&& occurs_at(s, i)
    &&& forall|j: int| occurs_at(s, j) ==> j <= i
}

/// The content after splicing `frag` in right after the marker at `i`,
/// followed by a fresh marker on a line of its own.
pub open spec fn spliced(content: Seq<char>, frag: Seq<char>, i: int) -> Seq<char> {
    content.subrange(0, i + 5) + frag + "\n- - -"@ + content.subrange(i + 5, content.len() as int)
}

/// An occurrence of the marker is the same thing as its five characters
/// standing at five consecutive positions.
pub proof fn lemma_occurs_chars(s: Seq<char>, i: int)
    requires
        0 <= i,
        i + 5 <= s.len(),
    ensures
        occurs_at(s, i) <==> (s[i] == '-' && s[i + 1] == ' ' && s[i + 2] == '-' && s[i + 3]
            == ' ' && s[i + 4] == '-'),
{
    reveal_strlit("- - -");
    if s[i] == '-' && s[i + 1] == ' ' && s[i + 2] == '-' && s[i + 3] == ' ' && s[i + 4] == '-' {
        assert(s.subrange(i, i + 5) =~= marker());
    }
    if occurs_at(s, i) {
        assert(s.subrange(i, i + 5)[0] == s[i]);
        assert(s.subrange(i, i + 5)[1] == s[i + 1]);
        assert(s.subrange(i, i + 5)[2] == s[i + 2]);
        assert(s.subrange(i, i + 5)[3] == s[i + 3]);
        assert(s.subrange(i, i + 5)[4] == s[i + 4]);
    }
}

/// Whether the five characters of the marker stand at position `i` of `s`.
fn matches_at(s: &str, n: usize, i: usize) -> (r: bool)
    requires
        n == s@.len(),
        i + 5 <= n,
    ensures
        r == occurs_at(s@, i as int),
{
    proof {
        lemma_occurs_chars(s@, i as int);
    }
    s.get_char(i) == '-' && s.get_char(i + 1) == ' ' && s.get_char(i + 2) == '-' && s.get_char(
        i + 3,
    ) == ' ' && s.get_char(i + 4) == '-'
}

/// Position of the first marker occurrence in `s`, if any.
pub fn find_first_marker(s: &str) -> (r: Option<usize>)
    ensures
        match r {
            Some(i) => is_first_marker(s@, i as int),
            None => !has_marker(s@),
        },
        r is Some <==> has_marker(s@),
{
    let n = s.unicode_len();
    if n < 5 {
        proof {
            assert forall|j: int| !occurs_at(s@, j) by {}
        }
        return None;
    }
    let mut i: usize = 0;
    while i <= n - 5
        invariant
            n == s@.len(),
            5 <= n,
            i <= n - 4,
            forall|j: int| 0 <= j < i ==> !occurs_at(s@, j),
        decreases n - i,
    {
        if matches_at(s, n, i) {
            return Some(i);
        }
        i += 1;
    }
    proof {
        assert forall|j: int| !occurs_at(s@, j) by {
            if 0 <= j && j + 5 <= s@.len() {
                assert(j < i);
            }
        }
    }
    None
}

/// Position of the last marker occurrence in `s`, if any.
pub fn find_last_marker(s: &str) -> (r: Option<usize>)
    ensures
        match r {
            Some(i) => is_last_marker(s@, i as int),
            None => !has_marker(s@),
        },
        r is Some <==> has_marker(s@),
{
    let n = s.unicode_len();
    if n < 5 {
        proof {
            assert forall|j: int| !occurs_at(s@, j) by {}
        }
        return None;
    }
    let mut i: usize = n - 4;
    while i > 0
        invariant
            n == s@.len(),
            5 <= n,
            i <= n - 4,
            forall|j: int| i <= j ==> !occurs_at(s@, j),
        decreases i,
    {
        i -= 1;
        if matches_at(s, n, i) {
            return Some(i);
        }
    }
    None
}

/// Splice `frag` in right after the marker occurrence at `i`, and close it
/// with a fresh `\n- - -` marker line.
pub fn splice_after(content: &str, frag: &str, i: usize) -> (r: String)
    requires
        occurs_at(content@, i as int),
    ensures
        r@ == spliced(content@, frag@, i as int),
{
    let n = content.unicode_len();
    let mut out = content.substring_char(0, i + 5).to_owned();
    out.append(frag);
    out.append("\n- - -");
    out.append(content.substring_char(i + 5, n));
    proof {
        assert(out@ =~= spliced(content@, frag@, i as int));
    }
    out
}

/// Splicing after the last marker occurrence keeps every old occurrence,
/// adds exactly one new one (the fresh closing marker), and leaves all the
/// old content outside the spliced-in span unchanged.
///
/// The fragment must hold no marker of its own and must not begin with
/// `" -"`, which could complete the anchor marker's tail into a new,
/// overlapping occurrence.
pub proof fn lemma_splice_markers(c: Seq<char>, f: Seq<char>, i: int)
    requires
        is_last_marker(c, i),
        forall|j: int| !occurs_at(f, j),
        !(f.len() >= 2 && f[0] == ' ' && f[1] == '-'),
    ensures
        spliced(c, f, i).len() == c.len() + f.len() + 6,
        occurs_at(spliced(c, f, i), i + f.len() + 6),
        forall|j: int|
            occurs_at(spliced(c, f, i), j) <==> (occurs_at(c, j) || j == i + f.len() + 6),
        spliced(c, f, i).subrange(0, i + 5) == c.subrange(0, i + 5),
        spliced(c, f, i).subrange(i + 5, i + 5 + f.len()) == f,
        spliced(c, f, i).subrange(i + 11 + f.len(), spliced(c, f, i).len() as int) == c.subrange(
            i + 5,
            c.len() as int,
        ),
{
    reveal_strlit("- - -");
    reveal_strlit("\n- - -");
    let s = spliced(c, f, i);
    let fl = f.len() as int;
    let m2 = "\n- - -"@;
    let j0 = i + fl + 6;
    assert(m2.len() == 6);
    assert(m2[0] == '\n' && m2[1] == '-' && m2[2] == ' ' && m2[3] == '-' && m2[4] == ' ' && m2[5]
        == '-');
    lemma_occurs_chars(c, i);
    assert(s.len() == c.len() + fl + 6);
    assert forall|p: int| 0 <= p < i + 5 implies s[p] == c[p] by {}
    assert forall|p: int| i + 5 <= p < i + 5 + fl implies s[p] == f[p - i - 5] by {}
    assert forall|p: int| i + 5 + fl <= p < i + 11 + fl implies s[p] == m2[p - i - 5 - fl] by {}
    assert forall|p: int| i + 11 + fl <= p < s.len() implies s[p] == c[p - fl - 6] by {}

    assert(occurs_at(s, j0)) by {
        lemma_occurs_chars(s, j0);
    }
    assert forall|j: int| occurs_at(c, j) implies occurs_at(s, j) by {
        lemma_occurs_chars(c, j);
        lemma_occurs_chars(s, j);
    }
    assert forall|j: int| occurs_at(s, j) && j != j0 implies occurs_at(c, j) by {
        lemma_occurs_chars(s, j);
        if j <= i {
            lemma_occurs_chars(c, j);
        } else if j <= i + 4 {
            // overlapping the anchor marker's tail: the characters after it
            // do not continue a marker
            if j == i + 2 {
                if fl >= 2 {
                    assert(f[0] == ' ' && f[1] == '-');
                }
                assert(false);
            } else if j == i + 4 {
                if fl >= 2 {
                    assert(f[0] == ' ' && f[1] == '-');
                }
                assert(false);
            } else {
                assert(s[j] == c[j] && c[j] == ' ');
                assert(false);
            }
        } else if j + 5 <= i + 5 + fl {
            // inside the fragment, which holds no marker
            lemma_occurs_chars(f, j - i - 5);
            assert(occurs_at(f, j - i - 5));
            assert(false);
        } else if j <= i + 5 + fl {
            // the window covers the newline before the closing marker
            let t = i + 5 + fl - j;
            assert(s[i + 5 + fl] == '\n');
            assert(s[j + t] == marker()[t]);
            assert(false);
        } else if j <= i + 10 + fl {
            // overlapping the closing marker's tail: this would put a
            // further marker occurrence after the anchor in the old content
            let t = j - j0;
            if t == 2 {
                assert(s[j + 3] == c[i + 5] && s[j + 4] == c[i + 6]);
                lemma_occurs_chars(c, i + 2);
                assert(occurs_at(c, i + 2));
                assert(false);
            } else if t == 4 {
                assert(s[j + 1] == c[i + 5] && s[j + 2] == c[i + 6] && s[j + 3] == c[i + 7] && s[j
                    + 4] == c[i + 8]);
                lemma_occurs_chars(c, i + 4);
                assert(occurs_at(c, i + 4));
                assert(false);
            } else {
                assert(s[j] == ' ');
                assert(false);
            }
        } else {
            // fully inside the old content after the anchor, which holds
            // no marker occurrence past the last one
            lemma_occurs_chars(c, j - fl - 6);
            assert(occurs_at(c, j - fl - 6));
            assert(false);
        }
    }
    assert(s.subrange(0, i + 5) =~= c.subrange(0, i + 5));
    assert(s.subrange(i + 5, i + 5 + fl) =~= f);
    assert(s.subrange(i + 11 + fl, s.len() as int) =~= c.subrange(i + 5, c.len() as int));
}

/// Idempotent framing: a document with exactly one marker has, after one
/// splice, exactly two — the old anchor and the fresh closing marker —
/// with the fragment standing strictly between them and all prior content
/// strictly outside.
pub proof fn lemma_single_marker_framing(c: Seq<char>, f: Seq<char>, i: int)
    requires
        occurs_at(c, i),
        forall|j: int| occurs_at(c, j) ==> j == i,
        forall|j: int| !occurs_at(f, j),
        !(f.len() >= 2 && f[0] == ' ' && f[1] == '-'),
    ensures
        occurs_at(spliced(c, f, i), i),
        occurs_at(spliced(c, f, i), i + f.len() + 6),
        forall|j: int| occurs_at(spliced(c, f, i), j) ==> (j == i || j == i + f.len() + 6),
        spliced(c, f, i).subrange(0, i + 5) == c.subrange(0, i + 5),
        spliced(c, f, i).subrange(i + 5, i + 5 + f.len()) == f,
        spliced(c, f, i).subrange(i + 11 + f.len(), spliced(c, f, i).len() as int) == c.subrange(
            i + 5,
            c.len() as int,
        ),
{
    lemma_splice_markers(c, f, i);
    assert(occurs_at(spliced(c, f, i), i + f.len() + 6));
    assert forall|j: int| occurs_at(spliced(c, f, i), j) implies (j == i || j == i + f.len()
        + 6) by {
        assert(occurs_at(c, j) || j == i + f.len() + 6);
    }
}

} // verus!
