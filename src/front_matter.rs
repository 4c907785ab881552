//! The header block at the start of a note: its fields, and how the block is
//! told apart from the body.
use vstd::prelude::*;

verus! {

/// The fields of a note's header: a date, kept as text, and a point value.
#[derive(Debug)]
pub struct FrontMatter {
    pub date: Option<String>,
    pub xp: Option<u32>,
}

impl FrontMatter {
    /// A header with no field set: what a note without a header block has.
    pub fn empty() -> (r: FrontMatter)
        ensures
            r.date is None,
            r.xp is None,
    {
        FrontMatter { date: None, xp: None }
    }
}

/// The line that opens a header block.
pub open spec fn opening() -> Seq<char> {
    seq!['-', '-', '-', '\n']
}

/// The line that closes a header block, with the line break before it.
pub open spec fn closing() -> Seq<char> {
    seq!['\n', '-', '-', '-', '\n']
}

/// The text opens a header block.
pub open spec fn opens(s: Seq<char>) -> bool {
    s.len() >= 4 && s.subrange(0, 4) == opening()
}

/// A closing line starts at position `i` of the text.
pub open spec fn closes_at(s: Seq<char>, i: int) -> bool {
    0 <= i && i + 5 <= s.len() && s.subrange(i, i + 5) == closing()
}

/// The text holds a header block: it opens one, and a closing line follows.
pub open spec fn has_header(s: Seq<char>) -> bool {
    opens(s) && exists|i: int| 4 <= i && #[trigger] closes_at(s, i)
}

/// The header block of the text ends at `i`: the first closing line after
/// the opening one starts there.
pub open spec fn header_ends_at(s: Seq<char>, i: int) -> bool {
    opens(s) && 4 <= i && closes_at(s, i) && forall|j: int| 4 <= j < i ==> !#[trigger] closes_at(s, j)
}

fn closes_at_exec(s: &str, n: usize, i: usize) -> (r: bool)
    requires
        n == s@.len(),
    ensures
        r == closes_at(s@, i as int),
{
    if i > n || n - i < 5 {
        return false;
    }
    let r = s.get_char(i) == '\n' && s.get_char(i + 1) == '-' && s.get_char(i + 2) == '-'
        && s.get_char(i + 3) == '-' && s.get_char(i + 4) == '\n';
    proof {
        if r {
            assert(s@.subrange(i as int, i + 5) =~= closing());
        }
        if s@.subrange(i as int, i + 5) == closing() {
            assert(s@[i as int + 1] == s@.subrange(i as int, i + 5)[1]);
            assert(s@[i as int + 2] == s@.subrange(i as int, i + 5)[2]);
            assert(s@[i as int + 3] == s@.subrange(i as int, i + 5)[3]);
            assert(s@[i as int + 4] == s@.subrange(i as int, i + 5)[4]);
            assert(s@[i as int] == s@.subrange(i as int, i + 5)[0]);
        }
    }
    r
}

fn opens_exec(s: &str, n: usize) -> (r: bool)
    requires
        n == s@.len(),
    ensures
        r == opens(s@),
{
    if n < 4 {
        return false;
    }
    let r = s.get_char(0) == '-' && s.get_char(1) == '-' && s.get_char(2) == '-'
        && s.get_char(3) == '\n';
    proof {
        if r {
            assert(s@.subrange(0, 4) =~= opening());
        }
        if s@.subrange(0, 4) == opening() {
            assert(s@[0] == s@.subrange(0, 4)[0]);
            assert(s@[1] == s@.subrange(0, 4)[1]);
            assert(s@[2] == s@.subrange(0, 4)[2]);
            assert(s@[3] == s@.subrange(0, 4)[3]);
        }
    }
    r
}

/// Header text that can stand between the two lines of a block: no closing
/// line starts inside it, and it does not end in a `---` line of its own,
/// which would close the block early.
pub open spec fn well_formed_header(h: Seq<char>) -> bool {
    &&& forall|j: int| !#[trigger] closes_at(h, j)
    &&& !(h.len() >= 4 && h.subrange(h.len() - 4, h.len() as int) == seq!['\n', '-', '-', '-'])
}

/// A block built from a well-formed header text ends right after that text.
proof fn lemma_block_end(h: Seq<char>, b: Seq<char>)
    requires
        well_formed_header(h),
    ensures
        header_ends_at(opening() + h + closing() + b, 4 + h.len() as int),
{
    let c = opening() + h + closing() + b;
    let e: int = 4 + h.len() as int;
    assert(c.subrange(0, 4) =~= opening());
    assert(c.subrange(e, e + 5) =~= closing());
    assert forall|j: int| 4 <= j < e implies !#[trigger] closes_at(c, j) by {
        if closes_at(c, j) {
            if j + 5 <= e {
                assert(h.subrange(j - 4, j + 1) =~= c.subrange(j, j + 5));
                assert(closes_at(h, j - 4));
            } else {
                let k = e - j;
                assert(c[j + k] == c.subrange(j, j + 5)[k]);
                assert(c[e] == '\n');
                if k == 4 {
                    assert(h.subrange(h.len() - 4, h.len() as int) =~= c.subrange(j, j + 4));
                    assert(c.subrange(j, j + 4) =~= c.subrange(j, j + 5).subrange(0, 4));
                    assert(h.subrange(h.len() - 4, h.len() as int) =~= seq!['\n', '-', '-', '-']);
                }
            }
        }
    }
}

/// Splits a note into the text of its header block and its body.
///
/// A header block is an opening `---` line at the very start, then the header
/// text, then the first `---` line that follows on a line of its own. When
/// there is one, the header text is what lies between the two lines and the
/// body is everything after the closing line. When there is none, there is
/// no header text and the body is the whole note.
pub fn split_front_matter(content: &str) -> (r: (Option<String>, String))
    ensures
        r.0 is None <==> !has_header(content@),
        r.0 is None ==> r.1@ == content@,
        r.0 matches Some(h) ==> exists|i: int|
            #[trigger] header_ends_at(content@, i) && h@ == content@.subrange(4, i)
                && r.1@ == content@.subrange(i + 5, content@.len() as int),
        r.0 matches Some(h) ==> content@ == opening() + h@ + closing() + r.1@,
        forall|h: Seq<char>, b: Seq<char>|
            well_formed_header(h) && content@ == #[trigger] (opening() + h + closing() + b) ==> (
            r.0 matches Some(x) && x@ == h && r.1@ == b),
{
    let n = content.unicode_len();
    if !opens_exec(content, n) {
        proof {
            assert forall|h: Seq<char>, b: Seq<char>|
                well_formed_header(h) && content@ == #[trigger] (opening() + h + closing() + b)
                implies false by {
                assert(content@.subrange(0, 4) =~= opening());
            }
        }
        return (None, String::from_str(content));
    }
    let mut i: usize = 4;
    while i < n
        invariant
            4 <= i,
            n == content@.len(),
            opens(content@),
            forall|j: int| 4 <= j < i ==> !#[trigger] closes_at(content@, j),
        decreases n - i,
    {
        if closes_at_exec(content, n, i) {
            let header = content.substring_char(4, i);
            let body = content.substring_char(i + 5, n);
            proof {
                assert(header_ends_at(content@, i as int));
                assert(content@ =~= opening() + header@ + closing() + body@);
                assert forall|h: Seq<char>, b: Seq<char>|
                    well_formed_header(h) && content@ == #[trigger] (opening() + h + closing() + b)
                    implies header@ == h && body@ == b by {
                    lemma_block_end(h, b);
                    let e: int = 4 + h.len() as int;
                    if e < i {
                        assert(closes_at(content@, e));
                    }
                    assert(h =~= content@.subrange(4, e));
                    assert(b =~= content@.subrange(e + 5, content@.len() as int));
                }
            }
            return (Some(String::from_str(header)), String::from_str(body));
        }
        i = i + 1;
    }
    proof {
        assert forall|h: Seq<char>, b: Seq<char>|
            well_formed_header(h) && content@ == #[trigger] (opening() + h + closing() + b)
            implies false by {
            lemma_block_end(h, b);
            assert(closes_at(content@, 4 + h.len() as int));
        }
        assert forall|j: int| 4 <= j implies !#[trigger] closes_at(content@, j) by {
            if j >= i {
                assert(j + 5 > content@.len());
            }
        }
    }
    (None, String::from_str(content))
}

} // verus!
