//! The page record that every dump reader yields, the errors they report,
//! and the pieces of field decoding they share.
use vstd::prelude::*;
use vstd::utf8::{decode_utf8, valid_utf8};

verus! {

/// One page of a dump, with the text of its single revision.
#[derive(Debug, Clone)]
pub struct Page {
    pub title: String,
    pub ns: Option<i32>,
    pub id: Option<i32>,
    pub rev_id: Option<i32>,
    pub rev_contrib_id: Option<i32>,
    pub rev_text: String,
}

/// The mathematical value of a [`Page`].
pub struct PageView {
    pub title: Seq<char>,
    pub ns: Option<i32>,
    pub id: Option<i32>,
    pub rev_id: Option<i32>,
    pub rev_contrib_id: Option<i32>,
    pub rev_text: Seq<char>,
}

impl View for Page {
    type V = PageView;

    open spec fn view(&self) -> PageView {
        PageView {
            title: self.title@,
            ns: self.ns,
            id: self.id,
            rev_id: self.rev_id,
            rev_contrib_id: self.rev_contrib_id,
            rev_text: self.rev_text@,
        }
    }
}

/// A page with every field empty.
pub open spec fn empty_page() -> PageView {
    PageView {
        title: Seq::empty(),
        ns: None,
        id: None,
        rev_id: None,
        rev_contrib_id: None,
        rev_text: Seq::empty(),
    }
}

/// The page after its `seen`-th `<id>` (counting from 0) carried `id`: the
/// first is the page id, the second the revision id, the third the
/// contributor id; later ones are ignored.
pub open spec fn with_id(p: PageView, seen: nat, id: i32) -> PageView {
    if seen == 0 {
        PageView { id: Some(id), ..p }
    } else if seen == 1 {
        PageView { rev_id: Some(id), ..p }
    } else if seen == 2 {
        PageView { rev_contrib_id: Some(id), ..p }
    } else {
        p
    }
}

/// The count of `<id>` elements after one more: it stops at three, as
/// later ones are ignored.
pub open spec fn next_id_count(seen: nat) -> nat {
    if seen < 3 {
        seen + 1
    } else {
        seen
    }
}

impl Page {
    pub fn new() -> (r: Page)
        ensures
            r@ == empty_page(),
    {
        Page {
            title: String::new(),
            ns: None,
            id: None,
            rev_id: None,
            rev_contrib_id: None,
            rev_text: String::new(),
        }
    }

    /// Records the `seen`-th `<id>` of the page.
    pub fn set_positional_id(&mut self, seen: usize, id: i32)
        ensures
            final(self)@ == with_id(old(self)@, seen as nat, id),
    {
        if seen == 0 {
            self.id = Some(id);
        } else if seen == 1 {
            self.rev_id = Some(id);
        } else if seen == 2 {
            self.rev_contrib_id = Some(id);
        }
    }
}

/// Why a dump could not be read.
#[derive(Debug, Clone, Copy, PartialEq, Eq, Structural)]
pub enum ParseError {
    /// A byte differs from the one the grammar expects there. The position
    /// is that of the byte read: offset counted from 1, line and column of
    /// the byte after it.
    Mismatch { offset: usize, line: usize, column: usize, expected: u8, found: u8 },
    /// A byte is none of the ones that may follow at that point.
    Unexpected { offset: usize, line: usize, column: usize, found: u8 },
    /// The input ended inside a page or inside the header.
    UnexpectedEof { offset: usize, line: usize, column: usize },
    /// A text field is not valid UTF-8.
    Encoding,
    /// An `<id>` or `<ns>` body is not a 32-bit integer.
    BadNumber,
    /// A page was asked for after the end of the dump had been reported.
    AfterEnd,
    /// The bytes fed so far end inside the header or a page, and more may
    /// come: feed more and ask again.
    NeedInput,
}

/// Value of a non-empty run of ASCII digits.
pub open spec fn digits_value(s: Seq<char>) -> int
    decreases s.len(),
{
    if s.len() == 0 {
        0
    } else {
        digits_value(s.drop_last()) * 10 + (s.last() as int - '0' as int)
    }
}

pub open spec fn all_digits(s: Seq<char>) -> bool {
    s.len() > 0 && forall|i: int| 0 <= i < s.len() ==> '0' <= #[trigger] s[i] && s[i] <= '9'
}

/// The integer that `s` spells as `str::parse::<i32>` reads it: an optional
/// `+` or `-`, then one or more ASCII digits, within the range of `i32`.
pub open spec fn i32_of(s: Seq<char>) -> Option<i32> {
    let v = if s.len() > 0 && s[0] == '-' && all_digits(s.drop_first()) {
        Some(-digits_value(s.drop_first()))
    } else if s.len() > 0 && s[0] == '+' && all_digits(s.drop_first()) {
        Some(digits_value(s.drop_first()))
    } else if all_digits(s) {
        Some(digits_value(s))
    } else {
        None
    };
    match v {
        Some(x) => if i32::MIN <= x <= i32::MAX {
            Some(x as i32)
        } else {
            None
        },
        None => None,
    }
}

proof fn lemma_digits_grow(s: Seq<char>, j: int)
    requires
        0 <= j <= s.len(),
        forall|i: int| 0 <= i < s.len() ==> '0' <= #[trigger] s[i] && s[i] <= '9',
    ensures
        digits_value(s.subrange(0, j)) <= digits_value(s),
        0 <= digits_value(s.subrange(0, j)),
    decreases s.len() - j,
{
    if j < s.len() {
        lemma_digits_grow(s, j + 1);
        assert(s.subrange(0, j + 1).drop_last() =~= s.subrange(0, j));
    } else {
        assert(s.subrange(0, j) =~= s);
        lemma_digits_nonneg(s);
    }
}

proof fn lemma_digits_nonneg(s: Seq<char>)
    requires
        forall|i: int| 0 <= i < s.len() ==> '0' <= #[trigger] s[i] && s[i] <= '9',
    ensures
        0 <= digits_value(s),
    decreases s.len(),
{
    if s.len() > 0 {
        lemma_digits_nonneg(s.drop_last());
    }
}

/// Reads `v[lo..hi]` as an `i32`, as `str::parse::<i32>` does.
pub fn parse_i32(v: &Vec<char>, lo: usize, hi: usize) -> (r: Option<i32>)
    requires
        lo <= hi <= v@.len(),
    ensures
        r == i32_of(v@.subrange(lo as int, hi as int)),
{
    let ghost s = v@.subrange(lo as int, hi as int);
    let mut neg = false;
    let mut d = lo;
    if lo < hi && (v[lo] == '-' || v[lo] == '+') {
        neg = v[lo] == '-';
        d = lo + 1;
    }
    let ghost ds = v@.subrange(d as int, hi as int);
    proof {
        if d > lo {
            assert(s.drop_first() =~= ds);
        } else {
            assert(s =~= ds);
        }
    }
    if d == hi {
        return None;
    }
    let mut acc: i64 = 0;
    let mut i = d;
    while i < hi
        invariant
            lo <= d <= i <= hi <= v@.len(),
            ds == v@.subrange(d as int, hi as int),
            s == v@.subrange(lo as int, hi as int),
            d > lo ==> d == lo + 1 && s.len() > 0 && (s[0] == '-' || s[0] == '+') && neg == (s[0]
                == '-') && s.drop_first() == ds,
            d == lo ==> !neg && s == ds && ds.len() > 0 && ds[0] != '-' && ds[0] != '+',
            forall|j: int| d <= j < i ==> '0' <= #[trigger] v@[j] && v@[j] <= '9',
            acc == digits_value(v@.subrange(d as int, i as int)),
            0 <= acc <= 2147483648,
        decreases hi - i,
    {
        let c = v[i];
        if !('0' <= c && c <= '9') {
            assert(ds[i - d] == c);
            assert(!all_digits(ds));
            proof {
                if d > lo {
                    assert(!all_digits(s.drop_first()));
                    assert(!('0' <= s[0] && s[0] <= '9'));
                    assert(!all_digits(s));
                } else {
                    assert(!all_digits(s));
                }
            }
            return None;
        }
        assert(v@.subrange(d as int, i + 1).drop_last() =~= v@.subrange(d as int, i as int));
        acc = acc * 10 + (c as u32 - '0' as u32) as i64;
        i += 1;
        if acc > 2147483648 {
            proof {
                if all_digits(ds) {
                    lemma_digits_grow(ds, i - d);
                    assert(ds.subrange(0, i - d) =~= v@.subrange(d as int, i as int));
                } else if d > lo {
                    assert(!('0' <= s[0] && s[0] <= '9'));
                }
            }
            return None;
        }
    }
    assert(v@.subrange(d as int, i as int) =~= ds);
    if neg {
        Some((-acc) as i32)
    } else if acc > 2147483647 {
        None
    } else {
        Some(acc as i32)
    }
}

/// Decodes UTF-8 bytes, failing on anything that is not valid UTF-8.
/// Relies on String::from_utf8: `Ok` exactly for valid UTF-8, with the
/// characters it encodes.
#[verifier::external_body]
pub(crate) fn utf8_string(b: Vec<u8>) -> (r: Option<String>)
    ensures
        r is Some <==> valid_utf8(b@),
        r matches Some(s) ==> s@ == decode_utf8(b@),
{
    String::from_utf8(b).ok()
}

/// What a reader's answer is, over page values.
pub open spec fn page_result_view(r: Result<Option<Page>, ParseError>) -> Result<
    Option<PageView>,
    ParseError,
> {
    match r {
        Ok(Some(p)) => Ok(Some(p@)),
        Ok(None) => Ok(None),
        Err(e) => Err(e),
    }
}

} // verus!
