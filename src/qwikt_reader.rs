//! The strict dump reader: a recursive-descent reader that insists on the
//! exact bytes of one generator's export layout, header and page template
//! alike, and fails at the first byte that differs.
//!
//! The reader is fed the dump in chunks and keeps only what it has not yet
//! consumed. When a page is cut off by the end of the bytes fed so far and
//! the input is not closed, it asks for more input and reads the page again
//! from its start once more has come.
use vstd::prelude::*;

use crate::page::{i32_of, parse_i32, utf8_string, Page, PageView, ParseError};
use crate::text::chars_of;
use vstd::utf8::{decode_utf8, valid_utf8};

verus! {

/// Offset, line and column of the next byte, for error reports.
#[derive(Debug, Clone, Copy)]
pub struct Position {
    pub off: usize,
    pub line: usize,
    pub col: usize,
}

impl Position {
    pub fn new() -> (r: Position)
        ensures
            r.off == 0 && r.line == 1 && r.col == 1,
    {
        Position { off: 0, line: 1, col: 1 }
    }

    /// Moves past `byte`: a newline starts the next line. The counts stop
    /// at the largest `usize`.
    pub fn advance(&mut self, byte: u8)
        ensures
            final(self).off == sat_inc(old(self).off),
            byte == 10 ==> final(self).line == sat_inc(old(self).line) && final(self).col == 1,
            byte != 10 ==> final(self).line == old(self).line && final(self).col == sat_inc(
                old(self).col,
            ),
    {
        self.off = if self.off < usize::MAX {
            self.off + 1
        } else {
            self.off
        };
        if byte == 10 {
            self.line = if self.line < usize::MAX {
                self.line + 1
            } else {
                self.line
            };
            self.col = 1;
        } else {
            self.col = if self.col < usize::MAX {
                self.col + 1
            } else {
                self.col
            };
        }
    }
}

pub open spec fn sat_inc(n: usize) -> usize {
    if n < usize::MAX {
        (n + 1) as usize
    } else {
        n
    }
}

/// The bytes of an ASCII literal.
pub open spec fn lit(s: Seq<char>) -> Seq<u8> {
    s.map_values(|c: char| c as u8)
}

/// A field followed by the byte that ends it.
pub open spec fn until(v: Seq<u8>, d: u8) -> Seq<u8> {
    v.push(d)
}

/// A field that does not hold the byte that ends it.
pub open spec fn field(v: Seq<u8>, d: u8) -> bool {
    !v.contains(d)
}

/// `<` and `"`, the bytes that end fields.
pub open spec fn lt() -> u8 {
    60u8
}

pub open spec fn quote() -> u8 {
    34u8
}

/// One `<namespace>` line of the header.
pub struct NamespaceFields {
    pub key: Seq<u8>,
    pub case: Seq<u8>,
    pub name: Option<Seq<u8>>,
}

/// The variable parts of the dump header.
pub struct HeaderFields {
    pub lang: Seq<u8>,
    pub sitename: Seq<u8>,
    pub dbname: Seq<u8>,
    pub base: Seq<u8>,
    pub generator: Seq<u8>,
    pub namespaces: Seq<NamespaceFields>,
}

pub enum ContributorFields {
    Deleted,
    User { name: Seq<u8>, id: Seq<u8> },
    Ip { ip: Seq<u8> },
}

pub enum CommentFields {
    Absent,
    Text(Seq<u8>),
    Deleted,
}

/// The variable parts of one page.
pub struct PageFields {
    pub title: Seq<u8>,
    pub ns: Seq<u8>,
    pub id: Seq<u8>,
    pub redirect: Option<Seq<u8>>,
    pub rev_id: Seq<u8>,
    pub parent_id: Option<Seq<u8>>,
    pub timestamp: Seq<u8>,
    pub contributor: ContributorFields,
    pub minor: bool,
    pub comment: CommentFields,
    pub origin: Seq<u8>,
    pub model: Seq<u8>,
    pub format: Seq<u8>,
    pub text_bytes: Seq<u8>,
    pub text_sha1: Seq<u8>,
    pub text: Option<Seq<u8>>,
    pub sha1: Seq<u8>,
}

pub open spec fn namespace_bytes(n: NamespaceFields) -> Seq<u8> {
    lit("    "@) + seq![32u8] + lit(" <namespace key=\""@) + until(n.key, quote()) + lit(
        " case=\""@,
    ) + until(n.case, quote()) + match n.name {
        Some(name) => seq![62u8] + until(name, lt()) + lit("/namespace>\n"@),
        None => seq![32u8] + lit("/>\n"@),
    }
}

pub open spec fn namespaces_bytes(ns: Seq<NamespaceFields>) -> Seq<u8>
    decreases ns.len(),
{
    if ns.len() == 0 {
        Seq::empty()
    } else {
        namespaces_bytes(ns.drop_last()) + namespace_bytes(ns.last())
    }
}

pub open spec fn namespace_ok(n: NamespaceFields) -> bool {
    field(n.key, quote()) && field(n.case, quote()) && match n.name {
        Some(name) => field(name, lt()),
        None => true,
    }
}

/// The header of a dump, from `<mediawiki` to `</siteinfo>`.
pub open spec fn header_bytes(h: HeaderFields) -> Seq<u8> {
    lit(
        "<mediawiki xmlns=\"http://www.mediawiki.org/xml/export-0.11/\" xmlns:xsi=\"http://www.w3.org/2001/XMLSchema-instance\" xsi:schemaLocation=\"http://www.mediawiki.org/xml/export-0.11/ http://www.mediawiki.org/xml/export-0.11.xsd\" version=\"0.11\" xml:lang=\""@,
    ) + until(h.lang, quote()) + lit(">\n"@) + lit("  <siteinfo>\n    <sitename>"@) + until(
        h.sitename,
        lt(),
    ) + lit("/sitename>\n    <dbname>"@) + until(h.dbname, lt()) + lit("/dbname>\n    <base>"@)
        + until(h.base, lt()) + lit("/base>\n    <generator>MediaWiki "@) + until(
        h.generator,
        lt(),
    ) + lit("/generator>\n    <case>case-sensitive</case>\n    <namespaces>\n"@)
        + namespaces_bytes(h.namespaces) + namespaces_end() + lit("  </siteinfo>\n"@)
}

pub open spec fn header_ok(h: HeaderFields) -> bool {
    &&& field(h.lang, quote())
    &&& field(h.sitename, lt())
    &&& field(h.dbname, lt())
    &&& field(h.base, lt())
    &&& field(h.generator, lt())
    &&& forall|i: int| 0 <= i < h.namespaces.len() ==> namespace_ok(#[trigger] h.namespaces[i])
}

/// `consumed` is a dump header.
pub open spec fn is_header(consumed: Seq<u8>) -> bool {
    exists|h: HeaderFields| header_ok(h) && #[trigger] header_bytes(h) == consumed
}

pub open spec fn redirect_bytes(r: Option<Seq<u8>>) -> Seq<u8> {
    match r {
        Some(r) => seq![100u8] + lit("irect title=\""@) + until(r, quote()) + lit(" />\n    <rev"@),
        None => seq![118u8],
    }
}

/// From `<page>` to the revision's `<id>`.
pub open spec fn page_head_bytes(f: PageFields) -> Seq<u8> {
    page_head_of(f.title, f.ns, f.id, f.redirect)
}

pub open spec fn parent_bytes(p: Option<Seq<u8>>) -> Seq<u8> {
    match p {
        Some(p) => seq![112u8] + lit("arentid>"@) + until(p, lt()) + lit(
            "/parentid>\n      <timestamp>"@,
        ),
        None => seq![116u8] + lit("imestamp>"@),
    }
}

/// From the revision id to `<contributor`.
pub open spec fn revision_head_bytes(f: PageFields) -> Seq<u8> {
    revision_head_of(f.rev_id, f.parent_id, f.timestamp)
}

/// The contributor, up to the `<` of the element after it.
pub open spec fn contributor_bytes(c: ContributorFields) -> Seq<u8> {
    match c {
        ContributorFields::Deleted => seq![32u8] + lit("deleted=\"deleted\" />\n      <"@),
        ContributorFields::User { name, id } => seq![62u8] + lit("\n        <"@) + seq![117u8]
            + lit("sername>"@) + until(name, lt()) + lit("/username>\n        <id>"@) + until(
            id,
            lt(),
        ) + lit("/id>\n      </contributor>\n      <"@),
        ContributorFields::Ip { ip } => seq![62u8] + lit("\n        <"@) + seq![105u8] + lit(
            "p>"@,
        ) + until(ip, lt()) + lit("/ip>\n      </contributor>\n      <"@),
    }
}

pub open spec fn minor_bytes(minor: bool) -> Seq<u8> {
    if minor {
        seq![109u8] + lit("inor />\n      <"@)
    } else {
        Seq::empty()
    }
}

pub open spec fn comment_bytes(c: CommentFields) -> Seq<u8> {
    match c {
        CommentFields::Absent => Seq::empty(),
        CommentFields::Text(c) => seq![99u8] + lit("omment"@) + seq![62u8] + until(c, lt()) + lit(
            "/comment>\n      <"@,
        ),
        CommentFields::Deleted => seq![99u8] + lit("omment"@) + seq![32u8] + lit(
            "deleted=\"deleted\" />\n      <"@,
        ),
    }
}

/// The optional `<minor />` and `<comment>`, then `<origin>` to the text's attributes.
pub open spec fn revision_tail_bytes(f: PageFields) -> Seq<u8> {
    minor_and_comment_of(f.minor, f.comment) + lit("rigin>"@) + until(f.origin, lt()) + lit(
        "/origin>\n      <"@,
    ) + lit("model>"@) + until(f.model, lt()) + lit("/model>\n      <"@) + lit("format>"@) + until(
        f.format,
        lt(),
    ) + lit("/format>\n      <text bytes=\""@) + until(f.text_bytes, quote()) + lit(" sha1=\""@)
        + until(f.text_sha1, quote()) + lit(" "@)
}

pub open spec fn text_body_bytes(t: Option<Seq<u8>>) -> Seq<u8> {
    match t {
        None => seq![47u8] + lit(">\n      <sha1>"@),
        Some(t) => seq![120u8] + lit("ml:space=\"preserve\">"@) + until(t, lt()) + lit(
            "/text>\n      <sha1>"@,
        ),
    }
}

/// The text body and the end of the page.
pub open spec fn page_end_bytes(f: PageFields) -> Seq<u8> {
    page_end_of(f.text, f.sha1)
}

/// The bytes of one page of the dump.
pub open spec fn page_bytes(f: PageFields) -> Seq<u8> {
    page_head_bytes(f) + revision_head_bytes(f) + contributor_bytes(f.contributor)
        + revision_tail_bytes(f) + page_end_bytes(f)
}

pub open spec fn page_fields_ok(f: PageFields) -> bool {
    &&& field(f.title, lt()) && field(f.ns, lt()) && field(f.id, lt())
    &&& (f.redirect matches Some(r) ==> field(r, quote()))
    &&& field(f.rev_id, lt()) && (f.parent_id matches Some(p) ==> field(p, lt())) && field(
        f.timestamp,
        lt(),
    )
    &&& match f.contributor {
        ContributorFields::Deleted => true,
        ContributorFields::User { name, id } => field(name, lt()) && field(id, lt()),
        ContributorFields::Ip { ip } => field(ip, lt()),
    }
    &&& (f.comment matches CommentFields::Text(c) ==> field(c, lt()))
    &&& field(f.origin, lt()) && field(f.model, lt()) && field(f.format, lt())
    &&& field(f.text_bytes, quote()) && field(f.text_sha1, quote())
    &&& (f.text matches Some(t) ==> field(t, lt())) && field(f.sha1, lt())
}

/// The number that the bytes `b` spell, if they are UTF-8 and spell one.
pub open spec fn number_of(b: Seq<u8>) -> Option<i32> {
    if valid_utf8(b) {
        i32_of(decode_utf8(b))
    } else {
        None
    }
}

/// The page record that the fields give: title and text decoded from
/// UTF-8, namespace and ids read as integers.
pub open spec fn page_value(f: PageFields) -> Option<PageView> {
    if !valid_utf8(f.title) || number_of(f.ns) is None || number_of(f.id) is None || number_of(
        f.rev_id,
    ) is None {
        None
    } else if f.contributor matches ContributorFields::User { id, .. } && number_of(id) is None {
        None
    } else if f.text matches Some(t) && !valid_utf8(t) {
        None
    } else {
        Some(
            PageView {
                title: decode_utf8(f.title),
                ns: number_of(f.ns),
                id: number_of(f.id),
                rev_id: number_of(f.rev_id),
                rev_contrib_id: match f.contributor {
                    ContributorFields::User { id, .. } => number_of(id),
                    _ => None,
                },
                rev_text: match f.text {
                    Some(t) => decode_utf8(t),
                    None => Seq::empty(),
                },
            },
        )
    }
}

/// `consumed` is one page of the dump, and `p` the record it holds.
pub open spec fn is_page(consumed: Seq<u8>, p: PageView) -> bool {
    exists|f: PageFields|
        page_fields_ok(f) && #[trigger] page_bytes(f) == consumed && page_value(f) == Some(p)
}

proof fn lemma_cat(s: Seq<u8>, a: int, b: int, c: int)
    requires
        0 <= a <= b <= c <= s.len(),
    ensures
        s.subrange(a, c) == s.subrange(a, b) + s.subrange(b, c),
{
    assert(s.subrange(a, c) =~= s.subrange(a, b) + s.subrange(b, c));
}

/// The bytes `x` stand in `s` at `at`.
pub open spec fn present(s: Seq<u8>, at: int, x: Seq<u8>) -> bool {
    0 <= at && at + x.len() <= s.len() && s.subrange(at, at + x.len()) == x
}

proof fn lemma_window(s: Seq<u8>, at: int, x: Seq<u8>, a: int, b: int)
    requires
        present(s, at, x),
        0 <= a <= b <= x.len(),
    ensures
        present(s, at + a, x.subrange(a, b)),
{
    assert(s.subrange(at + a, at + b) =~= x.subrange(a, b)) by {
        assert forall|j: int| 0 <= j < b - a implies s.subrange(at + a, at + b)[j] == x.subrange(
            a,
            b,
        )[j] by {
            assert(s.subrange(at, at + x.len())[a + j] == x[a + j]);
        }
    }
}

/// A field is read back as it stands: two fields ended by `d` that both
/// start at `at` are equal.
proof fn lemma_field_unique(s: Seq<u8>, at: int, v: Seq<u8>, w: Seq<u8>, d: u8)
    requires
        present(s, at, until(v, d)),
        present(s, at, until(w, d)),
        field(v, d),
        field(w, d),
    ensures
        v == w,
{
    if v.len() < w.len() {
        assert(s.subrange(at, at + until(v, d).len())[v.len() as int] == d);
        assert(s.subrange(at, at + until(w, d).len())[v.len() as int] == w[v.len() as int]);
        assert(w.contains(d));
    } else if w.len() < v.len() {
        assert(s.subrange(at, at + until(w, d).len())[w.len() as int] == d);
        assert(s.subrange(at, at + until(v, d).len())[w.len() as int] == v[w.len() as int]);
        assert(v.contains(d));
    } else {
        assert forall|j: int| 0 <= j < v.len() implies v[j] == w[j] by {
            assert(s.subrange(at, at + until(v, d).len())[j] == v[j]);
            assert(s.subrange(at, at + until(w, d).len())[j] == w[j]);
        }
        assert(v =~= w);
    }
}

/// What stands in the input at `base + at` stands in its tail from `base` at `at`.
proof fn lemma_shift(input: Seq<u8>, base: int, tail: Seq<u8>, at: int, x: Seq<u8>)
    requires
        0 <= base <= input.len(),
        0 <= at,
        tail == input.subrange(base, input.len() as int),
        present(input, base + at, x),
    ensures
        present(tail, at, x),
{
    assert(tail.subrange(at, at + x.len()) =~= x) by {
        assert forall|j: int| 0 <= j < x.len() implies tail.subrange(at, at + x.len())[j] == x[j] by {
            assert(input.subrange(base + at, base + at + x.len())[j] == x[j]);
        }
    }
}

/// Where a page is ahead, the lead-in and the page stand in the bytes held,
/// and the page starts with a space, not `<`.
proof fn lemma_ahead(initialized: bool, input: Seq<u8>, base: int, buf: Seq<u8>, start: int, h: HeaderFields, f: PageFields)
    requires
        0 <= base <= input.len(),
        0 <= start,
        buf == input.subrange(base, input.len() as int),
        page_ahead(initialized, input, base + start, h, f),
    ensures
        present(buf, start, lead_in(initialized, h)),
        present(buf, start + lead_in(initialized, h).len(), page_bytes(f)),
        start + lead_in(initialized, h).len() < buf.len(),
        buf[start + lead_in(initialized, h).len()] == 32u8,
{
    let lead = lead_in(initialized, h);
    let whole = lead + page_bytes(f);
    lemma_shift(input, base, buf, start, whole);
    lemma_window(buf, start, whole, 0, lead.len() as int);
    assert(whole.subrange(0, lead.len() as int) =~= lead);
    lemma_window(buf, start, whole, lead.len() as int, whole.len() as int);
    assert(whole.subrange(lead.len() as int, whole.len() as int) =~= page_bytes(f));
    let mid = start + lead.len();
    let w = page_bytes(f);
    assert(w[0] == 32u8);
    assert(buf.subrange(mid, mid + w.len())[0] == buf[mid]);
}

proof fn lemma_namespaces_single(n: NamespaceFields)
    ensures
        namespaces_bytes(seq![n]) == namespace_bytes(n),
{
    let s = seq![n];
    assert(s.len() == 1);
    assert(s.drop_last() =~= Seq::<NamespaceFields>::empty());
    assert(s.last() == n);
    assert(namespaces_bytes(Seq::<NamespaceFields>::empty()) == Seq::<u8>::empty());
    assert(namespaces_bytes(s) == namespaces_bytes(s.drop_last()) + namespace_bytes(s.last()));
    assert(Seq::<u8>::empty() + namespace_bytes(n) =~= namespace_bytes(n));
}

proof fn lemma_namespaces_concat(a: Seq<NamespaceFields>, b: Seq<NamespaceFields>)
    ensures
        namespaces_bytes(a + b) == namespaces_bytes(a) + namespaces_bytes(b),
    decreases b.len(),
{
    if b.len() == 0 {
        assert(a + b =~= a);
        assert(namespaces_bytes(a) + namespaces_bytes(b) =~= namespaces_bytes(a));
    } else {
        lemma_namespaces_concat(a, b.drop_last());
        assert((a + b).drop_last() =~= a + b.drop_last());
        assert((a + b).last() == b.last());
        assert(namespaces_bytes(a + b) =~= namespaces_bytes(a) + namespaces_bytes(b));
    }
}

/// A read position in the bytes held.
struct Cursor {
    pos: usize,
    at: Position,
}

/// Why reading stops when the bytes held run out.
fn out_of_input(closed: bool, at: Position) -> (r: ParseError)
    ensures
        closed ==> r is UnexpectedEof,
        !closed ==> r == ParseError::NeedInput,
{
    if closed {
        ParseError::UnexpectedEof { offset: at.off, line: at.line, column: at.col }
    } else {
        ParseError::NeedInput
    }
}

fn read_byte(buf: &Vec<u8>, closed: bool, cur: &mut Cursor) -> (r: Result<u8, ParseError>)
    requires
        old(cur).pos <= buf@.len(),
    ensures
        final(cur).pos <= buf@.len(),
        match r {
            Ok(b) => old(cur).pos < buf@.len() && b == buf@[old(cur).pos as int] && final(cur).pos
                == old(cur).pos + 1,
            Err(e) => old(cur).pos == buf@.len() && (closed ==> e is UnexpectedEof) && (!closed
                ==> e == ParseError::NeedInput),
        },
{
    if cur.pos >= buf.len() {
        return Err(out_of_input(closed, cur.at));
    }
    let b = buf[cur.pos];
    cur.pos += 1;
    cur.at.advance(b);
    Ok(b)
}

/// Reads the bytes of the ASCII literal `expected`.
fn expect(buf: &Vec<u8>, closed: bool, cur: &mut Cursor, expected: &str) -> (r: Result<(), ParseError>)
    requires
        old(cur).pos <= buf@.len(),
    ensures
        final(cur).pos <= buf@.len(),
        r is Ok ==> old(cur).pos <= final(cur).pos && buf@.subrange(
            old(cur).pos as int,
            final(cur).pos as int,
        ) == lit(expected@),
        r == Err::<(), ParseError>(ParseError::NeedInput) ==> !closed,
        present(buf@, old(cur).pos as int, lit(expected@)) ==> r is Ok,
{
    let e = chars_of(expected);
    let ghost start = cur.pos;
    let mut i: usize = 0;
    while i < e.len()
        invariant
            start <= cur.pos <= buf@.len(),
            i <= e@.len(),
            cur.pos == start + i,
            start == old(cur).pos,
            e@ == expected@,
            buf@.subrange(start as int, cur.pos as int) == lit(e@.subrange(0, i as int)),
        decreases e@.len() - i,
    {
        let found = match read_byte(buf, closed, cur) {
            Ok(b) => b,
            Err(err) => {
                return Err(err);
            },
        };
        let want = e[i] as u8;
        proof {
            if present(buf@, start as int, lit(expected@)) {
                assert(buf@.subrange(start as int, start + lit(expected@).len())[i as int] == lit(
                    expected@,
                )[i as int]);
            }
        }
        if found != want {
            return Err(
                ParseError::Mismatch {
                    offset: cur.at.off,
                    line: cur.at.line,
                    column: cur.at.col,
                    expected: want,
                    found,
                },
            );
        }
        proof {
            lemma_cat(buf@, start as int, cur.pos - 1, cur.pos as int);
            assert(lit(e@.subrange(0, i + 1)) =~= lit(e@.subrange(0, i as int)) + seq![want]);
            assert(buf@.subrange(cur.pos - 1, cur.pos as int) =~= seq![want]);
        }
        i += 1;
    }
    assert(e@.subrange(0, i as int) =~= e@);
    Ok(())
}

/// Reads up to and including the byte `delimiter`; returns what came before it.
fn read_until(buf: &Vec<u8>, closed: bool, cur: &mut Cursor, delimiter: u8) -> (r: Result<
    Vec<u8>,
    ParseError,
>)
    requires
        old(cur).pos <= buf@.len(),
    ensures
        final(cur).pos <= buf@.len(),
        r matches Ok(v) ==> old(cur).pos <= final(cur).pos && buf@.subrange(
            old(cur).pos as int,
            final(cur).pos as int,
        ) == until(v@, delimiter) && field(v@, delimiter),
        r == Err::<Vec<u8>, ParseError>(ParseError::NeedInput) ==> !closed,
        (exists|k: int| old(cur).pos <= k < buf@.len() && buf@[k] == delimiter) ==> r is Ok,
{
    let ghost start = cur.pos;
    let mut v: Vec<u8> = Vec::new();
    loop
        invariant
            start == old(cur).pos,
            start <= cur.pos <= buf@.len(),
            buf@.subrange(start as int, cur.pos as int) == v@,
            field(v@, delimiter),
        decreases buf@.len() - cur.pos,
    {
        let b = match read_byte(buf, closed, cur) {
            Ok(b) => b,
            Err(err) => {
                proof {
                    if exists|k: int| start <= k < buf@.len() && buf@[k] == delimiter {
                        let k = choose|k: int| start <= k < buf@.len() && buf@[k] == delimiter;
                        assert(v@[k - start] == delimiter);
                        assert(v@.contains(delimiter));
                    }
                }
                return Err(err);
            },
        };
        proof {
            lemma_cat(buf@, start as int, cur.pos - 1, cur.pos as int);
            assert(buf@.subrange(cur.pos - 1, cur.pos as int) =~= seq![b]);
        }
        if b == delimiter {
            assert(v@ + seq![b] =~= until(v@, delimiter));
            return Ok(v);
        }
        proof {
            assert(!v@.push(b).contains(delimiter)) by {
                if v@.push(b).contains(delimiter) {
                    let k = choose|k: int| 0 <= k < v@.push(b).len() && v@.push(b)[k] == delimiter;
                    if k < v@.len() {
                        assert(v@.contains(delimiter));
                    }
                }
            }
        }
        v.push(b);
    }
}

fn unexpected(at: Position, found: u8) -> (r: ParseError)
    ensures
        r is Unexpected,
{
    ParseError::Unexpected { offset: at.off, line: at.line, column: at.col, found }
}

/// The fields of a page that its record is made from.
struct RawPage {
    title: Vec<u8>,
    ns: Vec<u8>,
    id: Vec<u8>,
    rev_id: Vec<u8>,
    contributor_id: Option<Vec<u8>>,
    text: Option<Vec<u8>>,
}

spec fn raw_matches(f: PageFields, r: RawPage) -> bool {
    &&& f.title == r.title@ && f.ns == r.ns@ && f.id == r.id@ && f.rev_id == r.rev_id@
    &&& match f.contributor {
        ContributorFields::User { id, .. } => r.contributor_id matches Some(c) && c@ == id,
        _ => r.contributor_id is None,
    }
    &&& match f.text {
        Some(t) => r.text matches Some(x) && x@ == t,
        None => r.text is None,
    }
}

pub open spec fn page_head_of(title: Seq<u8>, ns: Seq<u8>, id: Seq<u8>, redirect: Option<Seq<u8>>) -> Seq<u8> {
    seq![32u8] + lit(" <page>\n    <title>"@) + until(title, lt()) + lit("/title>\n    <ns>"@)
        + until(ns, lt()) + lit("/ns>\n    <id>"@) + until(id, lt()) + lit("/id>\n    <re"@)
        + redirect_bytes(redirect) + lit("ision>\n      <id>"@)
}

pub open spec fn page_head_ok(title: Seq<u8>, ns: Seq<u8>, id: Seq<u8>, redirect: Option<Seq<u8>>) -> bool {
    field(title, lt()) && field(ns, lt()) && field(id, lt()) && (redirect matches Some(r) ==> field(r, quote()))
}

/// From `<page>` to the revision's `<id>`: title, namespace, page id and redirect. Where the bytes of `want` stand at the read position, they
/// are what is read.
#[verifier::spinoff_prover]
#[verifier::rlimit(100)]
fn page_head(buf: &Vec<u8>, closed: bool, cur: &mut Cursor, want: Ghost<(Seq<u8>, Seq<u8>, Seq<u8>, Option<Seq<u8>>)>) -> (r: Result<(Vec<u8>, Vec<u8>, Vec<u8>, Ghost<Option<Seq<u8>>>), ParseError>)
    requires
        old(cur).pos <= buf@.len(),
    ensures
        final(cur).pos <= buf@.len(),
        r matches Ok(x) ==> old(cur).pos <= final(cur).pos && buf@.subrange(old(cur).pos as int, final(cur).pos as int) == page_head_of(x.0@, x.1@, x.2@, x.3@) && page_head_ok(x.0@, x.1@, x.2@, x.3@),
        r == Err::<(Vec<u8>, Vec<u8>, Vec<u8>, Ghost<Option<Seq<u8>>>), ParseError>(ParseError::NeedInput) ==> !closed,
        present(buf@, old(cur).pos as int, page_head_of(want@.0, want@.1, want@.2, want@.3)) && page_head_ok(want@.0, want@.1, want@.2, want@.3) ==> (r matches Ok(x) && x.0@ == want@.0 && x.1@ == want@.1 && x.2@ == want@.2 && x.3@ == want@.3),
{
    let ghost ss: int = cur.pos as int;
    let ghost g = want@;
    let ghost x = page_head_of(g.0, g.1, g.2, g.3);
    let ghost hyp = present(buf@, ss, x) && page_head_ok(g.0, g.1, g.2, g.3);
    let ghost mut m: int = ss;
    let ghost mut off: int = 0;
    let ghost mut acc: Seq<u8> = Seq::empty();
    proof { assert(buf@.subrange(ss, m) =~= acc); }
    proof {
        if hyp {
            lemma_window(buf@, ss, x, off, off + 1);
            assert(x.subrange(off, off + 1)[0] == x[off]);
            assert(buf@.subrange(m, m + 1)[0] == x[off]);
            assert(x[off] == 32u8);
        }
    }
    let first = match read_byte(buf, closed, cur) {
        Err(e) => { return Err(e); },
        Ok(b) => b,
    };
    proof { lemma_cat(buf@, ss, m, cur.pos as int); assert(buf@.subrange(m, cur.pos as int) =~= seq![first]); m = cur.pos as int; off = off + 1; }
    if first != 32u8 {
        return Err(unexpected(cur.at, first));
    }
    proof { acc = acc + seq![32u8]; }
    proof {
        if hyp {
            lemma_window(buf@, ss, x, off, off + lit(" <page>\n    <title>"@).len() as int);
            assert(x.subrange(off, off + lit(" <page>\n    <title>"@).len() as int) =~= lit(" <page>\n    <title>"@));
        }
    }
    match expect(buf, closed, cur, " <page>\n    <title>") {
        Err(e) => { return Err(e); },
        Ok(()) => {},
    }
    proof { lemma_cat(buf@, ss, m, cur.pos as int); acc = acc + lit(" <page>\n    <title>"@); m = cur.pos as int; off = off + lit(" <page>\n    <title>"@).len() as int; }
    proof {
        if hyp {
            lemma_window(buf@, ss, x, off, off + g.0.len() as int + 1);
            assert(x.subrange(off, off + g.0.len() as int + 1) =~= until(g.0, lt()));
            assert(buf@.subrange(m, m + g.0.len() as int + 1)[g.0.len() as int] == 60u8);
            assert(buf@[m + g.0.len() as int] == 60u8);
        }
    }
    let title = match read_until(buf, closed, cur, 60u8) {
        Err(e) => { return Err(e); },
        Ok(v) => v,
    };
    proof {
        if hyp {
            lemma_field_unique(buf@, m, title@, g.0, 60u8);
        }
        lemma_cat(buf@, ss, m, cur.pos as int); acc = acc + until(title@, lt());
        m = cur.pos as int;
        off = off + g.0.len() as int + 1;
    }
    proof {
        if hyp {
            lemma_window(buf@, ss, x, off, off + lit("/title>\n    <ns>"@).len() as int);
            assert(x.subrange(off, off + lit("/title>\n    <ns>"@).len() as int) =~= lit("/title>\n    <ns>"@));
        }
    }
    match expect(buf, closed, cur, "/title>\n    <ns>") {
        Err(e) => { return Err(e); },
        Ok(()) => {},
    }
    proof { lemma_cat(buf@, ss, m, cur.pos as int); acc = acc + lit("/title>\n    <ns>"@); m = cur.pos as int; off = off + lit("/title>\n    <ns>"@).len() as int; }
    proof {
        if hyp {
            lemma_window(buf@, ss, x, off, off + g.1.len() as int + 1);
            assert(x.subrange(off, off + g.1.len() as int + 1) =~= until(g.1, lt()));
            assert(buf@.subrange(m, m + g.1.len() as int + 1)[g.1.len() as int] == 60u8);
            assert(buf@[m + g.1.len() as int] == 60u8);
        }
    }
    let ns = match read_until(buf, closed, cur, 60u8) {
        Err(e) => { return Err(e); },
        Ok(v) => v,
    };
    proof {
        if hyp {
            lemma_field_unique(buf@, m, ns@, g.1, 60u8);
        }
        lemma_cat(buf@, ss, m, cur.pos as int); acc = acc + until(ns@, lt());
        m = cur.pos as int;
        off = off + g.1.len() as int + 1;
    }
    proof {
        if hyp {
            lemma_window(buf@, ss, x, off, off + lit("/ns>\n    <id>"@).len() as int);
            assert(x.subrange(off, off + lit("/ns>\n    <id>"@).len() as int) =~= lit("/ns>\n    <id>"@));
        }
    }
    match expect(buf, closed, cur, "/ns>\n    <id>") {
        Err(e) => { return Err(e); },
        Ok(()) => {},
    }
    proof { lemma_cat(buf@, ss, m, cur.pos as int); acc = acc + lit("/ns>\n    <id>"@); m = cur.pos as int; off = off + lit("/ns>\n    <id>"@).len() as int; }
    proof {
        if hyp {
            lemma_window(buf@, ss, x, off, off + g.2.len() as int + 1);
            assert(x.subrange(off, off + g.2.len() as int + 1) =~= until(g.2, lt()));
            assert(buf@.subrange(m, m + g.2.len() as int + 1)[g.2.len() as int] == 60u8);
            assert(buf@[m + g.2.len() as int] == 60u8);
        }
    }
    let id = match read_until(buf, closed, cur, 60u8) {
        Err(e) => { return Err(e); },
        Ok(v) => v,
    };
    proof {
        if hyp {
            lemma_field_unique(buf@, m, id@, g.2, 60u8);
        }
        lemma_cat(buf@, ss, m, cur.pos as int); acc = acc + until(id@, lt());
        m = cur.pos as int;
        off = off + g.2.len() as int + 1;
    }
    proof {
        if hyp {
            lemma_window(buf@, ss, x, off, off + lit("/id>\n    <re"@).len() as int);
            assert(x.subrange(off, off + lit("/id>\n    <re"@).len() as int) =~= lit("/id>\n    <re"@));
        }
    }
    match expect(buf, closed, cur, "/id>\n    <re") {
        Err(e) => { return Err(e); },
        Ok(()) => {},
    }
    proof { lemma_cat(buf@, ss, m, cur.pos as int); acc = acc + lit("/id>\n    <re"@); m = cur.pos as int; off = off + lit("/id>\n    <re"@).len() as int; }
    let ghost mb = m;
    let ghost off_b = off;
    proof {
        if hyp {
            lemma_window(buf@, ss, x, off, off + 1);
            assert(x.subrange(off, off + 1)[0] == x[off]);
            assert(buf@.subrange(m, m + 1)[0] == x[off]);
            assert(x[off] == redirect_bytes(g.3)[0]);
        }
    }
    let b = match read_byte(buf, closed, cur) {
        Err(e) => { return Err(e); },
        Ok(b) => b,
    };
    proof { lemma_cat(buf@, mb, m, cur.pos as int); assert(buf@.subrange(m, cur.pos as int) =~= seq![b]); m = cur.pos as int; off = off + 1; }
    let ghost red: Option<Seq<u8>>;
    if b == 100u8 {
        let ghost gr = match g.3 {
            Some(r) => r,
            None => Seq::empty(),
        };
        proof {
            if hyp {
                assert(g.3 is Some);
            }
        }
        proof {
            if hyp {
                lemma_window(buf@, ss, x, off, off + lit("irect title=\""@).len() as int);
                assert(x.subrange(off, off + lit("irect title=\""@).len() as int) =~= lit("irect title=\""@));
            }
        }
        match expect(buf, closed, cur, "irect title=\"") {
            Err(e) => { return Err(e); },
            Ok(()) => {},
        }
        proof { lemma_cat(buf@, mb, m, cur.pos as int); m = cur.pos as int; off = off + lit("irect title=\""@).len() as int; }
        proof {
            if hyp {
                lemma_window(buf@, ss, x, off, off + gr.len() as int + 1);
                assert(x.subrange(off, off + gr.len() as int + 1) =~= until(gr, quote()));
                assert(buf@.subrange(m, m + gr.len() as int + 1)[gr.len() as int] == 34u8);
                assert(buf@[m + gr.len() as int] == 34u8);
            }
        }
        let r = match read_until(buf, closed, cur, 34u8) {
            Err(e) => { return Err(e); },
            Ok(v) => v,
        };
        proof {
            if hyp {
                lemma_field_unique(buf@, m, r@, gr, 34u8);
            }
            lemma_cat(buf@, mb, m, cur.pos as int);
            m = cur.pos as int;
            off = off + gr.len() as int + 1;
        }
        proof {
            if hyp {
                lemma_window(buf@, ss, x, off, off + lit(" />\n    <rev"@).len() as int);
                assert(x.subrange(off, off + lit(" />\n    <rev"@).len() as int) =~= lit(" />\n    <rev"@));
            }
        }
        match expect(buf, closed, cur, " />\n    <rev") {
            Err(e) => { return Err(e); },
            Ok(()) => {},
        }
        proof { lemma_cat(buf@, mb, m, cur.pos as int); m = cur.pos as int; off = off + lit(" />\n    <rev"@).len() as int; }
        proof {
            red = Some(r@);
            assert(buf@.subrange(mb, m) =~= redirect_bytes(red));
            if hyp {
                assert(off - off_b == redirect_bytes(g.3).len());
            }
        }
    } else if b == 118u8 {
        proof {
            red = None;
            assert(buf@.subrange(mb, m) =~= redirect_bytes(red));
            if hyp {
                assert(g.3 is None);
                assert(off - off_b == redirect_bytes(g.3).len());
            }
        }
    } else {
        proof {
            if hyp {
                assert(false);
            }
        }
        return Err(unexpected(cur.at, b));
    }
    proof { lemma_cat(buf@, ss, mb, m); acc = acc + redirect_bytes(red); }
    proof {
        if hyp {
            lemma_window(buf@, ss, x, off, off + lit("ision>\n      <id>"@).len() as int);
            assert(x.subrange(off, off + lit("ision>\n      <id>"@).len() as int) =~= lit("ision>\n      <id>"@));
        }
    }
    match expect(buf, closed, cur, "ision>\n      <id>") {
        Err(e) => { return Err(e); },
        Ok(()) => {},
    }
    proof { lemma_cat(buf@, ss, m, cur.pos as int); acc = acc + lit("ision>\n      <id>"@); m = cur.pos as int; off = off + lit("ision>\n      <id>"@).len() as int; }
    Ok((title, ns, id, Ghost(red)))
}

pub open spec fn revision_head_of(rev_id: Seq<u8>, parent: Option<Seq<u8>>, timestamp: Seq<u8>) -> Seq<u8> {
    until(rev_id, lt()) + lit("/id>\n      <"@) + parent_bytes(parent) + until(timestamp, lt()) + lit(
        "/timestamp>\n      <contributor"@,
    )
}

pub open spec fn revision_head_ok(rev_id: Seq<u8>, parent: Option<Seq<u8>>, timestamp: Seq<u8>) -> bool {
    field(rev_id, lt()) && (parent matches Some(p) ==> field(p, lt())) && field(timestamp, lt())
}

/// From the revision id to `<contributor`. Where the bytes of `want` stand at the read position, they
/// are what is read.
#[verifier::spinoff_prover]
#[verifier::rlimit(100)]
fn revision_head(buf: &Vec<u8>, closed: bool, cur: &mut Cursor, want: Ghost<(Seq<u8>, Option<Seq<u8>>, Seq<u8>)>) -> (r: Result<(Vec<u8>, Ghost<(Option<Seq<u8>>, Seq<u8>)>), ParseError>)
    requires
        old(cur).pos <= buf@.len(),
    ensures
        final(cur).pos <= buf@.len(),
        r matches Ok(x) ==> old(cur).pos <= final(cur).pos && buf@.subrange(old(cur).pos as int, final(cur).pos as int) == revision_head_of(x.0@, x.1@.0, x.1@.1) && revision_head_ok(x.0@, x.1@.0, x.1@.1),
        r == Err::<(Vec<u8>, Ghost<(Option<Seq<u8>>, Seq<u8>)>), ParseError>(ParseError::NeedInput) ==> !closed,
        present(buf@, old(cur).pos as int, revision_head_of(want@.0, want@.1, want@.2)) && revision_head_ok(want@.0, want@.1, want@.2) ==> (r matches Ok(x) && x.0@ == want@.0 && x.1@.0 == want@.1 && x.1@.1 == want@.2),
{
    let ghost ss: int = cur.pos as int;
    let ghost g = want@;
    let ghost x = revision_head_of(g.0, g.1, g.2);
    let ghost hyp = present(buf@, ss, x) && revision_head_ok(g.0, g.1, g.2);
    let ghost mut m: int = ss;
    let ghost mut off: int = 0;
    let ghost mut acc: Seq<u8> = Seq::empty();
    proof { assert(buf@.subrange(ss, m) =~= acc); }
    proof {
        if hyp {
            lemma_window(buf@, ss, x, off, off + g.0.len() as int + 1);
            assert(x.subrange(off, off + g.0.len() as int + 1) =~= until(g.0, lt()));
            assert(buf@.subrange(m, m + g.0.len() as int + 1)[g.0.len() as int] == 60u8);
            assert(buf@[m + g.0.len() as int] == 60u8);
        }
    }
    let rev_id = match read_until(buf, closed, cur, 60u8) {
        Err(e) => { return Err(e); },
        Ok(v) => v,
    };
    proof {
        if hyp {
            lemma_field_unique(buf@, m, rev_id@, g.0, 60u8);
        }
        lemma_cat(buf@, ss, m, cur.pos as int); acc = acc + until(rev_id@, lt());
        m = cur.pos as int;
        off = off + g.0.len() as int + 1;
    }
    proof {
        if hyp {
            lemma_window(buf@, ss, x, off, off + lit("/id>\n      <"@).len() as int);
            assert(x.subrange(off, off + lit("/id>\n      <"@).len() as int) =~= lit("/id>\n      <"@));
        }
    }
    match expect(buf, closed, cur, "/id>\n      <") {
        Err(e) => { return Err(e); },
        Ok(()) => {},
    }
    proof { lemma_cat(buf@, ss, m, cur.pos as int); acc = acc + lit("/id>\n      <"@); m = cur.pos as int; off = off + lit("/id>\n      <"@).len() as int; }
    let ghost mb = m;
    let ghost off_b = off;
    proof {
        if hyp {
            lemma_window(buf@, ss, x, off, off + 1);
            assert(x.subrange(off, off + 1)[0] == x[off]);
            assert(buf@.subrange(m, m + 1)[0] == x[off]);
            assert(x[off] == parent_bytes(g.1)[0]);
        }
    }
    let b = match read_byte(buf, closed, cur) {
        Err(e) => { return Err(e); },
        Ok(b) => b,
    };
    proof { lemma_cat(buf@, mb, m, cur.pos as int); assert(buf@.subrange(m, cur.pos as int) =~= seq![b]); m = cur.pos as int; off = off + 1; }
    let ghost parent: Option<Seq<u8>>;
    if b == 112u8 {
        let ghost gp = match g.1 {
            Some(p) => p,
            None => Seq::empty(),
        };
        proof {
            if hyp {
                assert(g.1 is Some);
            }
        }
        proof {
            if hyp {
                lemma_window(buf@, ss, x, off, off + lit("arentid>"@).len() as int);
                assert(x.subrange(off, off + lit("arentid>"@).len() as int) =~= lit("arentid>"@));
            }
        }
        match expect(buf, closed, cur, "arentid>") {
            Err(e) => { return Err(e); },
            Ok(()) => {},
        }
        proof { lemma_cat(buf@, mb, m, cur.pos as int); m = cur.pos as int; off = off + lit("arentid>"@).len() as int; }
        proof {
            if hyp {
                lemma_window(buf@, ss, x, off, off + gp.len() as int + 1);
                assert(x.subrange(off, off + gp.len() as int + 1) =~= until(gp, lt()));
                assert(buf@.subrange(m, m + gp.len() as int + 1)[gp.len() as int] == 60u8);
                assert(buf@[m + gp.len() as int] == 60u8);
            }
        }
        let p = match read_until(buf, closed, cur, 60u8) {
            Err(e) => { return Err(e); },
            Ok(v) => v,
        };
        proof {
            if hyp {
                lemma_field_unique(buf@, m, p@, gp, 60u8);
            }
            lemma_cat(buf@, mb, m, cur.pos as int);
            m = cur.pos as int;
            off = off + gp.len() as int + 1;
        }
        proof {
            if hyp {
                lemma_window(buf@, ss, x, off, off + lit("/parentid>\n      <timestamp>"@).len() as int);
                assert(x.subrange(off, off + lit("/parentid>\n      <timestamp>"@).len() as int) =~= lit("/parentid>\n      <timestamp>"@));
            }
        }
        match expect(buf, closed, cur, "/parentid>\n      <timestamp>") {
            Err(e) => { return Err(e); },
            Ok(()) => {},
        }
        proof { lemma_cat(buf@, mb, m, cur.pos as int); m = cur.pos as int; off = off + lit("/parentid>\n      <timestamp>"@).len() as int; }
        proof {
            parent = Some(p@);
            assert(buf@.subrange(mb, m) =~= parent_bytes(parent));
            if hyp {
                assert(off - off_b == parent_bytes(g.1).len());
            }
        }
    } else if b == 116u8 {
        proof {
            if hyp {
                assert(g.1 is None);
            }
        }
        proof {
            if hyp {
                lemma_window(buf@, ss, x, off, off + lit("imestamp>"@).len() as int);
                assert(x.subrange(off, off + lit("imestamp>"@).len() as int) =~= lit("imestamp>"@));
            }
        }
        match expect(buf, closed, cur, "imestamp>") {
            Err(e) => { return Err(e); },
            Ok(()) => {},
        }
        proof { lemma_cat(buf@, mb, m, cur.pos as int); m = cur.pos as int; off = off + lit("imestamp>"@).len() as int; }
        proof {
            parent = None;
            assert(buf@.subrange(mb, m) =~= parent_bytes(parent));
            if hyp {
                assert(off - off_b == parent_bytes(g.1).len());
            }
        }
    } else {
        proof {
            if hyp {
                assert(false);
            }
        }
        return Err(unexpected(cur.at, b));
    }
    proof { lemma_cat(buf@, ss, mb, m); acc = acc + parent_bytes(parent); }
    proof {
        if hyp {
            lemma_window(buf@, ss, x, off, off + g.2.len() as int + 1);
            assert(x.subrange(off, off + g.2.len() as int + 1) =~= until(g.2, lt()));
            assert(buf@.subrange(m, m + g.2.len() as int + 1)[g.2.len() as int] == 60u8);
            assert(buf@[m + g.2.len() as int] == 60u8);
        }
    }
    let timestamp = match read_until(buf, closed, cur, 60u8) {
        Err(e) => { return Err(e); },
        Ok(v) => v,
    };
    proof {
        if hyp {
            lemma_field_unique(buf@, m, timestamp@, g.2, 60u8);
        }
        lemma_cat(buf@, ss, m, cur.pos as int); acc = acc + until(timestamp@, lt());
        m = cur.pos as int;
        off = off + g.2.len() as int + 1;
    }
    proof {
        if hyp {
            lemma_window(buf@, ss, x, off, off + lit("/timestamp>\n      <contributor"@).len() as int);
            assert(x.subrange(off, off + lit("/timestamp>\n      <contributor"@).len() as int) =~= lit("/timestamp>\n      <contributor"@));
        }
    }
    match expect(buf, closed, cur, "/timestamp>\n      <contributor") {
        Err(e) => { return Err(e); },
        Ok(()) => {},
    }
    proof { lemma_cat(buf@, ss, m, cur.pos as int); acc = acc + lit("/timestamp>\n      <contributor"@); m = cur.pos as int; off = off + lit("/timestamp>\n      <contributor"@).len() as int; }
    Ok((rev_id, Ghost((parent, timestamp@))))
}

pub open spec fn contributor_ok(c: ContributorFields) -> bool {
    match c {
        ContributorFields::Deleted => true,
        ContributorFields::User { name, id } => field(name, lt()) && field(id, lt()),
        ContributorFields::Ip { ip } => field(ip, lt()),
    }
}

pub open spec fn contributor_id_of(c: ContributorFields, id: Option<Vec<u8>>) -> bool {
    match c {
        ContributorFields::User { id: cid, .. } => id matches Some(v) && v@ == cid,
        _ => id is None,
    }
}

/// The contributor, up to the `<` of the element after it. Where the bytes of `want` stand at the read position, they
/// are what is read.
#[verifier::spinoff_prover]
#[verifier::rlimit(100)]
fn contributor(buf: &Vec<u8>, closed: bool, cur: &mut Cursor, want: Ghost<ContributorFields>) -> (r: Result<(Option<Vec<u8>>, Ghost<ContributorFields>), ParseError>)
    requires
        old(cur).pos <= buf@.len(),
    ensures
        final(cur).pos <= buf@.len(),
        r matches Ok(x) ==> old(cur).pos <= final(cur).pos && buf@.subrange(old(cur).pos as int, final(cur).pos as int) == contributor_bytes(x.1@) && contributor_ok(x.1@) && contributor_id_of(x.1@, x.0),
        r == Err::<(Option<Vec<u8>>, Ghost<ContributorFields>), ParseError>(ParseError::NeedInput) ==> !closed,
        present(buf@, old(cur).pos as int, contributor_bytes(want@)) && contributor_ok(want@) ==> (r matches Ok(x) && x.1@ == want@),
{
    let ghost ss: int = cur.pos as int;
    let ghost g = want@;
    let ghost x = contributor_bytes(g);
    let ghost hyp = present(buf@, ss, x) && contributor_ok(g);
    let ghost mut m: int = ss;
    let ghost mut off: int = 0;
    let ghost mut acc: Seq<u8> = Seq::empty();
    proof { assert(buf@.subrange(ss, m) =~= acc); }
    proof {
        if hyp {
            lemma_window(buf@, ss, x, off, off + 1);
            assert(x.subrange(off, off + 1)[0] == x[off]);
            assert(buf@.subrange(m, m + 1)[0] == x[off]);
            assert(x[off] == x[off]);
        }
    }
    let cb = match read_byte(buf, closed, cur) {
        Err(e) => { return Err(e); },
        Ok(b) => b,
    };
    proof { lemma_cat(buf@, ss, m, cur.pos as int); assert(buf@.subrange(m, cur.pos as int) =~= seq![cb]); m = cur.pos as int; off = off + 1; }
    let ghost contributor: ContributorFields;
    let mut contributor_id: Option<Vec<u8>> = None;
    if cb == 32u8 {
        proof {
            if hyp {
                assert(g is Deleted);
            }
        }
        proof {
            if hyp {
                lemma_window(buf@, ss, x, off, off + lit("deleted=\"deleted\" />\n      <"@).len() as int);
                assert(x.subrange(off, off + lit("deleted=\"deleted\" />\n      <"@).len() as int) =~= lit("deleted=\"deleted\" />\n      <"@));
            }
        }
        match expect(buf, closed, cur, "deleted=\"deleted\" />\n      <") {
            Err(e) => { return Err(e); },
            Ok(()) => {},
        }
        proof { lemma_cat(buf@, ss, m, cur.pos as int); m = cur.pos as int; off = off + lit("deleted=\"deleted\" />\n      <"@).len() as int; }
        proof { contributor = ContributorFields::Deleted; }
    } else if cb == 62u8 {
        proof {
            if hyp {
                assert(!(g is Deleted));
            }
        }
        proof {
            if hyp {
                lemma_window(buf@, ss, x, off, off + lit("\n        <"@).len() as int);
                assert(x.subrange(off, off + lit("\n        <"@).len() as int) =~= lit("\n        <"@));
            }
        }
        match expect(buf, closed, cur, "\n        <") {
            Err(e) => { return Err(e); },
            Ok(()) => {},
        }
        proof { lemma_cat(buf@, ss, m, cur.pos as int); m = cur.pos as int; off = off + lit("\n        <"@).len() as int; }
        proof {
            if hyp {
                lemma_window(buf@, ss, x, off, off + 1);
                assert(x.subrange(off, off + 1)[0] == x[off]);
                assert(buf@.subrange(m, m + 1)[0] == x[off]);
                assert(x[off] == x[off]);
            }
        }
        let kb = match read_byte(buf, closed, cur) {
            Err(e) => { return Err(e); },
            Ok(b) => b,
        };
        proof { lemma_cat(buf@, ss, m, cur.pos as int); assert(buf@.subrange(m, cur.pos as int) =~= seq![kb]); m = cur.pos as int; off = off + 1; }
        if kb == 117u8 {
            let ghost gname = match g {
                ContributorFields::User { name, .. } => name,
                _ => Seq::empty(),
            };
            let ghost gid = match g {
                ContributorFields::User { id, .. } => id,
                _ => Seq::empty(),
            };
            proof {
                if hyp {
                    assert(g is User);
                }
            }
            proof {
                if hyp {
                    lemma_window(buf@, ss, x, off, off + lit("sername>"@).len() as int);
                    assert(x.subrange(off, off + lit("sername>"@).len() as int) =~= lit("sername>"@));
                }
            }
            match expect(buf, closed, cur, "sername>") {
                Err(e) => { return Err(e); },
                Ok(()) => {},
            }
            proof { lemma_cat(buf@, ss, m, cur.pos as int); m = cur.pos as int; off = off + lit("sername>"@).len() as int; }
            proof {
                if hyp {
                    lemma_window(buf@, ss, x, off, off + gname.len() as int + 1);
                    assert(x.subrange(off, off + gname.len() as int + 1) =~= until(gname, lt()));
                    assert(buf@.subrange(m, m + gname.len() as int + 1)[gname.len() as int] == 60u8);
                    assert(buf@[m + gname.len() as int] == 60u8);
                }
            }
            let name = match read_until(buf, closed, cur, 60u8) {
                Err(e) => { return Err(e); },
                Ok(v) => v,
            };
            proof {
                if hyp {
                    lemma_field_unique(buf@, m, name@, gname, 60u8);
                }
                lemma_cat(buf@, ss, m, cur.pos as int);
                m = cur.pos as int;
                off = off + gname.len() as int + 1;
            }
            proof {
                if hyp {
                    lemma_window(buf@, ss, x, off, off + lit("/username>\n        <id>"@).len() as int);
                    assert(x.subrange(off, off + lit("/username>\n        <id>"@).len() as int) =~= lit("/username>\n        <id>"@));
                }
            }
            match expect(buf, closed, cur, "/username>\n        <id>") {
                Err(e) => { return Err(e); },
                Ok(()) => {},
            }
            proof { lemma_cat(buf@, ss, m, cur.pos as int); m = cur.pos as int; off = off + lit("/username>\n        <id>"@).len() as int; }
            proof {
                if hyp {
                    lemma_window(buf@, ss, x, off, off + gid.len() as int + 1);
                    assert(x.subrange(off, off + gid.len() as int + 1) =~= until(gid, lt()));
                    assert(buf@.subrange(m, m + gid.len() as int + 1)[gid.len() as int] == 60u8);
                    assert(buf@[m + gid.len() as int] == 60u8);
                }
            }
            let cid = match read_until(buf, closed, cur, 60u8) {
                Err(e) => { return Err(e); },
                Ok(v) => v,
            };
            proof {
                if hyp {
                    lemma_field_unique(buf@, m, cid@, gid, 60u8);
                }
                lemma_cat(buf@, ss, m, cur.pos as int);
                m = cur.pos as int;
                off = off + gid.len() as int + 1;
            }
            proof {
                if hyp {
                    lemma_window(buf@, ss, x, off, off + lit("/id>\n      </contributor>\n      <"@).len() as int);
                    assert(x.subrange(off, off + lit("/id>\n      </contributor>\n      <"@).len() as int) =~= lit("/id>\n      </contributor>\n      <"@));
                }
            }
            match expect(buf, closed, cur, "/id>\n      </contributor>\n      <") {
                Err(e) => { return Err(e); },
                Ok(()) => {},
            }
            proof { lemma_cat(buf@, ss, m, cur.pos as int); m = cur.pos as int; off = off + lit("/id>\n      </contributor>\n      <"@).len() as int; }
            proof { contributor = ContributorFields::User { name: name@, id: cid@ }; }
            contributor_id = Some(cid);
        } else if kb == 105u8 {
            let ghost gip = match g {
                ContributorFields::Ip { ip } => ip,
                _ => Seq::empty(),
            };
            proof {
                if hyp {
                    assert(g is Ip);
                }
            }
            proof {
                if hyp {
                    lemma_window(buf@, ss, x, off, off + lit("p>"@).len() as int);
                    assert(x.subrange(off, off + lit("p>"@).len() as int) =~= lit("p>"@));
                }
            }
            match expect(buf, closed, cur, "p>") {
                Err(e) => { return Err(e); },
                Ok(()) => {},
            }
            proof { lemma_cat(buf@, ss, m, cur.pos as int); m = cur.pos as int; off = off + lit("p>"@).len() as int; }
            proof {
                if hyp {
                    lemma_window(buf@, ss, x, off, off + gip.len() as int + 1);
                    assert(x.subrange(off, off + gip.len() as int + 1) =~= until(gip, lt()));
                    assert(buf@.subrange(m, m + gip.len() as int + 1)[gip.len() as int] == 60u8);
                    assert(buf@[m + gip.len() as int] == 60u8);
                }
            }
            let ip = match read_until(buf, closed, cur, 60u8) {
                Err(e) => { return Err(e); },
                Ok(v) => v,
            };
            proof {
                if hyp {
                    lemma_field_unique(buf@, m, ip@, gip, 60u8);
                }
                lemma_cat(buf@, ss, m, cur.pos as int);
                m = cur.pos as int;
                off = off + gip.len() as int + 1;
            }
            proof {
                if hyp {
                    lemma_window(buf@, ss, x, off, off + lit("/ip>\n      </contributor>\n      <"@).len() as int);
                    assert(x.subrange(off, off + lit("/ip>\n      </contributor>\n      <"@).len() as int) =~= lit("/ip>\n      </contributor>\n      <"@));
                }
            }
            match expect(buf, closed, cur, "/ip>\n      </contributor>\n      <") {
                Err(e) => { return Err(e); },
                Ok(()) => {},
            }
            proof { lemma_cat(buf@, ss, m, cur.pos as int); m = cur.pos as int; off = off + lit("/ip>\n      </contributor>\n      <"@).len() as int; }
            proof { contributor = ContributorFields::Ip { ip: ip@ }; }
        } else {
            proof {
                if hyp {
                    assert(false);
                }
            }
            return Err(unexpected(cur.at, kb));
        }
    } else {
        proof {
            if hyp {
                assert(false);
            }
        }
        return Err(unexpected(cur.at, cb));
    }
    proof { assert(buf@.subrange(ss, m) =~= contributor_bytes(contributor)); }
    Ok((contributor_id, Ghost(contributor)))
}

pub open spec fn minor_and_comment_of(minor: bool, comment: CommentFields) -> Seq<u8> {
    minor_bytes(minor) + comment_bytes(comment) + seq![111u8]
}

pub open spec fn comment_ok(comment: CommentFields) -> bool {
    comment matches CommentFields::Text(c) ==> field(c, lt())
}

/// The optional `<minor />` and `<comment>`, and the `o` of `<origin>`. Where the bytes of `want` stand at the read position, they
/// are what is read.
#[verifier::spinoff_prover]
#[verifier::rlimit(100)]
fn minor_and_comment(buf: &Vec<u8>, closed: bool, cur: &mut Cursor, want: Ghost<(bool, CommentFields)>) -> (r: Result<Ghost<(bool, CommentFields)>, ParseError>)
    requires
        old(cur).pos <= buf@.len(),
    ensures
        final(cur).pos <= buf@.len(),
        r matches Ok(x) ==> old(cur).pos <= final(cur).pos && buf@.subrange(old(cur).pos as int, final(cur).pos as int) == minor_and_comment_of(x@.0, x@.1) && comment_ok(x@.1),
        r == Err::<Ghost<(bool, CommentFields)>, ParseError>(ParseError::NeedInput) ==> !closed,
        present(buf@, old(cur).pos as int, minor_and_comment_of(want@.0, want@.1)) && comment_ok(want@.1) ==> (r matches Ok(x) && x@ == want@),
{
    let ghost ss: int = cur.pos as int;
    let ghost g = want@;
    let ghost x = minor_and_comment_of(g.0, g.1);
    let ghost hyp = present(buf@, ss, x) && comment_ok(g.1);
    let ghost mut m: int = ss;
    let ghost mut off: int = 0;
    let ghost mut acc: Seq<u8> = Seq::empty();
    proof { assert(buf@.subrange(ss, m) =~= acc); }
    proof {
        if hyp {
            lemma_window(buf@, ss, x, off, off + 1);
            assert(x.subrange(off, off + 1)[0] == x[off]);
            assert(buf@.subrange(m, m + 1)[0] == x[off]);
            assert(x[off] == x[off]);
        }
    }
    let nb0 = match read_byte(buf, closed, cur) {
        Err(e) => { return Err(e); },
        Ok(b) => b,
    };
    proof { lemma_cat(buf@, ss, m, cur.pos as int); assert(buf@.subrange(m, cur.pos as int) =~= seq![nb0]); m = cur.pos as int; off = off + 1; }
    let mut nb = nb0;
    let mut minor = false;
    if nb == 109u8 {
        proof {
            if hyp {
                assert(g.0);
            }
        }
        proof {
            if hyp {
                lemma_window(buf@, ss, x, off, off + lit("inor />\n      <"@).len() as int);
                assert(x.subrange(off, off + lit("inor />\n      <"@).len() as int) =~= lit("inor />\n      <"@));
            }
        }
        match expect(buf, closed, cur, "inor />\n      <") {
            Err(e) => { return Err(e); },
            Ok(()) => {},
        }
        proof { lemma_cat(buf@, ss, m, cur.pos as int); m = cur.pos as int; off = off + lit("inor />\n      <"@).len() as int; }
        proof {
            if hyp {
                lemma_window(buf@, ss, x, off, off + 1);
                assert(x.subrange(off, off + 1)[0] == x[off]);
                assert(buf@.subrange(m, m + 1)[0] == x[off]);
                assert(x[off] == x[off]);
            }
        }
        let nb1 = match read_byte(buf, closed, cur) {
            Err(e) => { return Err(e); },
            Ok(b) => b,
        };
        proof { lemma_cat(buf@, ss, m, cur.pos as int); assert(buf@.subrange(m, cur.pos as int) =~= seq![nb1]); m = cur.pos as int; off = off + 1; }
        nb = nb1;
        minor = true;
    } else {
        proof {
            if hyp {
                assert(!g.0);
            }
        }
    }
    let ghost mc = m - 1;
    let ghost off_c = off - 1;
    proof {
        lemma_cat(buf@, ss, mc, m);
        assert(buf@.subrange(ss, mc) =~= minor_bytes(minor));
        if hyp {
            assert(minor == g.0);
            assert(off_c == minor_bytes(g.0).len());
        }
    }
    let ghost comment: CommentFields;
    if nb == 99u8 {
        proof {
            if hyp {
                assert(!(g.1 is Absent));
            }
        }
        proof {
            if hyp {
                lemma_window(buf@, ss, x, off, off + lit("omment"@).len() as int);
                assert(x.subrange(off, off + lit("omment"@).len() as int) =~= lit("omment"@));
            }
        }
        match expect(buf, closed, cur, "omment") {
            Err(e) => { return Err(e); },
            Ok(()) => {},
        }
        proof { lemma_cat(buf@, mc, m, cur.pos as int); m = cur.pos as int; off = off + lit("omment"@).len() as int; }
        proof {
            if hyp {
                lemma_window(buf@, ss, x, off, off + 1);
                assert(x.subrange(off, off + 1)[0] == x[off]);
                assert(buf@.subrange(m, m + 1)[0] == x[off]);
                assert(x[off] == x[off]);
            }
        }
        let kind = match read_byte(buf, closed, cur) {
            Err(e) => { return Err(e); },
            Ok(b) => b,
        };
        proof { lemma_cat(buf@, mc, m, cur.pos as int); assert(buf@.subrange(m, cur.pos as int) =~= seq![kind]); m = cur.pos as int; off = off + 1; }
        if kind == 62u8 {
            let ghost gc = match g.1 {
                CommentFields::Text(c) => c,
                _ => Seq::empty(),
            };
            proof {
                if hyp {
                    assert(g.1 is Text);
                }
            }
            proof {
                if hyp {
                    lemma_window(buf@, ss, x, off, off + gc.len() as int + 1);
                    assert(x.subrange(off, off + gc.len() as int + 1) =~= until(gc, lt()));
                    assert(buf@.subrange(m, m + gc.len() as int + 1)[gc.len() as int] == 60u8);
                    assert(buf@[m + gc.len() as int] == 60u8);
                }
            }
            let c = match read_until(buf, closed, cur, 60u8) {
                Err(e) => { return Err(e); },
                Ok(v) => v,
            };
            proof {
                if hyp {
                    lemma_field_unique(buf@, m, c@, gc, 60u8);
                }
                lemma_cat(buf@, mc, m, cur.pos as int);
                m = cur.pos as int;
                off = off + gc.len() as int + 1;
            }
            proof {
                if hyp {
                    lemma_window(buf@, ss, x, off, off + lit("/comment>\n      <"@).len() as int);
                    assert(x.subrange(off, off + lit("/comment>\n      <"@).len() as int) =~= lit("/comment>\n      <"@));
                }
            }
            match expect(buf, closed, cur, "/comment>\n      <") {
                Err(e) => { return Err(e); },
                Ok(()) => {},
            }
            proof { lemma_cat(buf@, mc, m, cur.pos as int); m = cur.pos as int; off = off + lit("/comment>\n      <"@).len() as int; }
            proof { comment = CommentFields::Text(c@); }
        } else if kind == 32u8 {
            proof {
                if hyp {
                    assert(g.1 is Deleted);
                }
            }
            proof {
                if hyp {
                    lemma_window(buf@, ss, x, off, off + lit("deleted=\"deleted\" />\n      <"@).len() as int);
                    assert(x.subrange(off, off + lit("deleted=\"deleted\" />\n      <"@).len() as int) =~= lit("deleted=\"deleted\" />\n      <"@));
                }
            }
            match expect(buf, closed, cur, "deleted=\"deleted\" />\n      <") {
                Err(e) => { return Err(e); },
                Ok(()) => {},
            }
            proof { lemma_cat(buf@, mc, m, cur.pos as int); m = cur.pos as int; off = off + lit("deleted=\"deleted\" />\n      <"@).len() as int; }
            proof { comment = CommentFields::Deleted; }
        } else {
            proof {
                if hyp {
                    assert(false);
                }
            }
            return Err(unexpected(cur.at, kind));
        }
        proof {
            if hyp {
                lemma_window(buf@, ss, x, off, off + 1);
                assert(x.subrange(off, off + 1)[0] == x[off]);
                assert(buf@.subrange(m, m + 1)[0] == x[off]);
                assert(x[off] == x[off]);
            }
        }
        let nb2 = match read_byte(buf, closed, cur) {
            Err(e) => { return Err(e); },
            Ok(b) => b,
        };
        proof { lemma_cat(buf@, mc, m, cur.pos as int); assert(buf@.subrange(m, cur.pos as int) =~= seq![nb2]); m = cur.pos as int; off = off + 1; }
        nb = nb2;
    } else {
        proof {
            comment = CommentFields::Absent;
            if hyp {
                assert(g.1 is Absent);
            }
        }
    }
    let ghost mo = m - 1;
    proof {
        lemma_cat(buf@, mc, mo, m);
        assert(buf@.subrange(mc, mo) =~= comment_bytes(comment));
        lemma_cat(buf@, ss, mc, mo);
        lemma_cat(buf@, ss, mo, m);
        if hyp {
            assert(comment == g.1);
        }
    }
    if nb != 111u8 {
        proof {
            if hyp {
                assert(false);
            }
        }
        return Err(unexpected(cur.at, nb));
    }
    proof { assert(buf@.subrange(mo, m) =~= seq![111u8]); }
    Ok(Ghost((minor, comment)))
}

pub open spec fn revision_tail_ok(f: PageFields) -> bool {
    comment_ok(f.comment) && field(f.origin, lt()) && field(f.model, lt()) && field(f.format, lt())
        && field(f.text_bytes, quote()) && field(f.text_sha1, quote())
}

pub open spec fn same_tail(f: PageFields, g: PageFields) -> bool {
    f.minor == g.minor && f.comment == g.comment && f.origin == g.origin && f.model == g.model
        && f.format == g.format && f.text_bytes == g.text_bytes && f.text_sha1 == g.text_sha1
}

/// From `<minor />` to the attributes of `<text`; only the fields of that stretch are set. Where the bytes of `want` stand at the read position, they
/// are what is read.
#[verifier::spinoff_prover]
#[verifier::rlimit(100)]
fn revision_tail(buf: &Vec<u8>, closed: bool, cur: &mut Cursor, want: Ghost<PageFields>) -> (r: Result<Ghost<PageFields>, ParseError>)
    requires
        old(cur).pos <= buf@.len(),
    ensures
        final(cur).pos <= buf@.len(),
        r matches Ok(x) ==> old(cur).pos <= final(cur).pos && buf@.subrange(old(cur).pos as int, final(cur).pos as int) == revision_tail_bytes(x@) && revision_tail_ok(x@),
        r == Err::<Ghost<PageFields>, ParseError>(ParseError::NeedInput) ==> !closed,
        present(buf@, old(cur).pos as int, revision_tail_bytes(want@)) && revision_tail_ok(want@) ==> (r matches Ok(x) && same_tail(x@, want@)),
{
    let ghost ss: int = cur.pos as int;
    let ghost g = want@;
    let ghost x = revision_tail_bytes(g);
    let ghost hyp = present(buf@, ss, x) && revision_tail_ok(g);
    let ghost mut m: int = ss;
    let ghost mut off: int = 0;
    let ghost mut acc: Seq<u8> = Seq::empty();
    proof { assert(buf@.subrange(ss, m) =~= acc); }
    proof {
        if hyp {
            let mcx = minor_and_comment_of(g.minor, g.comment);
            lemma_window(buf@, ss, x, 0, mcx.len() as int);
            assert(x.subrange(0, mcx.len() as int) =~= mcx);
        }
    }
    let mc = match minor_and_comment(buf, closed, cur, Ghost((g.minor, g.comment))) {
        Err(e) => { return Err(e); },
        Ok(v) => v,
    };
    proof {
        acc = minor_and_comment_of(mc@.0, mc@.1);
        m = cur.pos as int;
        off = acc.len() as int;
    }
    proof {
        if hyp {
            lemma_window(buf@, ss, x, off, off + lit("rigin>"@).len() as int);
            assert(x.subrange(off, off + lit("rigin>"@).len() as int) =~= lit("rigin>"@));
        }
    }
    match expect(buf, closed, cur, "rigin>") {
        Err(e) => { return Err(e); },
        Ok(()) => {},
    }
    proof { lemma_cat(buf@, ss, m, cur.pos as int); acc = acc + lit("rigin>"@); m = cur.pos as int; off = off + lit("rigin>"@).len() as int; }
    proof {
        if hyp {
            lemma_window(buf@, ss, x, off, off + g.origin.len() as int + 1);
            assert(x.subrange(off, off + g.origin.len() as int + 1) =~= until(g.origin, lt()));
            assert(buf@.subrange(m, m + g.origin.len() as int + 1)[g.origin.len() as int] == 60u8);
            assert(buf@[m + g.origin.len() as int] == 60u8);
        }
    }
    let origin = match read_until(buf, closed, cur, 60u8) {
        Err(e) => { return Err(e); },
        Ok(v) => v,
    };
    proof {
        if hyp {
            lemma_field_unique(buf@, m, origin@, g.origin, 60u8);
        }
        lemma_cat(buf@, ss, m, cur.pos as int); acc = acc + until(origin@, lt());
        m = cur.pos as int;
        off = off + g.origin.len() as int + 1;
    }
    proof {
        if hyp {
            lemma_window(buf@, ss, x, off, off + lit("/origin>\n      <"@).len() as int);
            assert(x.subrange(off, off + lit("/origin>\n      <"@).len() as int) =~= lit("/origin>\n      <"@));
        }
    }
    match expect(buf, closed, cur, "/origin>\n      <") {
        Err(e) => { return Err(e); },
        Ok(()) => {},
    }
    proof { lemma_cat(buf@, ss, m, cur.pos as int); acc = acc + lit("/origin>\n      <"@); m = cur.pos as int; off = off + lit("/origin>\n      <"@).len() as int; }
    proof {
        if hyp {
            lemma_window(buf@, ss, x, off, off + lit("model>"@).len() as int);
            assert(x.subrange(off, off + lit("model>"@).len() as int) =~= lit("model>"@));
        }
    }
    match expect(buf, closed, cur, "model>") {
        Err(e) => { return Err(e); },
        Ok(()) => {},
    }
    proof { lemma_cat(buf@, ss, m, cur.pos as int); acc = acc + lit("model>"@); m = cur.pos as int; off = off + lit("model>"@).len() as int; }
    proof {
        if hyp {
            lemma_window(buf@, ss, x, off, off + g.model.len() as int + 1);
            assert(x.subrange(off, off + g.model.len() as int + 1) =~= until(g.model, lt()));
            assert(buf@.subrange(m, m + g.model.len() as int + 1)[g.model.len() as int] == 60u8);
            assert(buf@[m + g.model.len() as int] == 60u8);
        }
    }
    let model = match read_until(buf, closed, cur, 60u8) {
        Err(e) => { return Err(e); },
        Ok(v) => v,
    };
    proof {
        if hyp {
            lemma_field_unique(buf@, m, model@, g.model, 60u8);
        }
        lemma_cat(buf@, ss, m, cur.pos as int); acc = acc + until(model@, lt());
        m = cur.pos as int;
        off = off + g.model.len() as int + 1;
    }
    proof {
        if hyp {
            lemma_window(buf@, ss, x, off, off + lit("/model>\n      <"@).len() as int);
            assert(x.subrange(off, off + lit("/model>\n      <"@).len() as int) =~= lit("/model>\n      <"@));
        }
    }
    match expect(buf, closed, cur, "/model>\n      <") {
        Err(e) => { return Err(e); },
        Ok(()) => {},
    }
    proof { lemma_cat(buf@, ss, m, cur.pos as int); acc = acc + lit("/model>\n      <"@); m = cur.pos as int; off = off + lit("/model>\n      <"@).len() as int; }
    proof {
        if hyp {
            lemma_window(buf@, ss, x, off, off + lit("format>"@).len() as int);
            assert(x.subrange(off, off + lit("format>"@).len() as int) =~= lit("format>"@));
        }
    }
    match expect(buf, closed, cur, "format>") {
        Err(e) => { return Err(e); },
        Ok(()) => {},
    }
    proof { lemma_cat(buf@, ss, m, cur.pos as int); acc = acc + lit("format>"@); m = cur.pos as int; off = off + lit("format>"@).len() as int; }
    proof {
        if hyp {
            lemma_window(buf@, ss, x, off, off + g.format.len() as int + 1);
            assert(x.subrange(off, off + g.format.len() as int + 1) =~= until(g.format, lt()));
            assert(buf@.subrange(m, m + g.format.len() as int + 1)[g.format.len() as int] == 60u8);
            assert(buf@[m + g.format.len() as int] == 60u8);
        }
    }
    let format = match read_until(buf, closed, cur, 60u8) {
        Err(e) => { return Err(e); },
        Ok(v) => v,
    };
    proof {
        if hyp {
            lemma_field_unique(buf@, m, format@, g.format, 60u8);
        }
        lemma_cat(buf@, ss, m, cur.pos as int); acc = acc + until(format@, lt());
        m = cur.pos as int;
        off = off + g.format.len() as int + 1;
    }
    proof {
        if hyp {
            lemma_window(buf@, ss, x, off, off + lit("/format>\n      <text bytes=\""@).len() as int);
            assert(x.subrange(off, off + lit("/format>\n      <text bytes=\""@).len() as int) =~= lit("/format>\n      <text bytes=\""@));
        }
    }
    match expect(buf, closed, cur, "/format>\n      <text bytes=\"") {
        Err(e) => { return Err(e); },
        Ok(()) => {},
    }
    proof { lemma_cat(buf@, ss, m, cur.pos as int); acc = acc + lit("/format>\n      <text bytes=\""@); m = cur.pos as int; off = off + lit("/format>\n      <text bytes=\""@).len() as int; }
    proof {
        if hyp {
            lemma_window(buf@, ss, x, off, off + g.text_bytes.len() as int + 1);
            assert(x.subrange(off, off + g.text_bytes.len() as int + 1) =~= until(g.text_bytes, quote()));
            assert(buf@.subrange(m, m + g.text_bytes.len() as int + 1)[g.text_bytes.len() as int] == 34u8);
            assert(buf@[m + g.text_bytes.len() as int] == 34u8);
        }
    }
    let text_bytes = match read_until(buf, closed, cur, 34u8) {
        Err(e) => { return Err(e); },
        Ok(v) => v,
    };
    proof {
        if hyp {
            lemma_field_unique(buf@, m, text_bytes@, g.text_bytes, 34u8);
        }
        lemma_cat(buf@, ss, m, cur.pos as int); acc = acc + until(text_bytes@, quote());
        m = cur.pos as int;
        off = off + g.text_bytes.len() as int + 1;
    }
    proof {
        if hyp {
            lemma_window(buf@, ss, x, off, off + lit(" sha1=\""@).len() as int);
            assert(x.subrange(off, off + lit(" sha1=\""@).len() as int) =~= lit(" sha1=\""@));
        }
    }
    match expect(buf, closed, cur, " sha1=\"") {
        Err(e) => { return Err(e); },
        Ok(()) => {},
    }
    proof { lemma_cat(buf@, ss, m, cur.pos as int); acc = acc + lit(" sha1=\""@); m = cur.pos as int; off = off + lit(" sha1=\""@).len() as int; }
    proof {
        if hyp {
            lemma_window(buf@, ss, x, off, off + g.text_sha1.len() as int + 1);
            assert(x.subrange(off, off + g.text_sha1.len() as int + 1) =~= until(g.text_sha1, quote()));
            assert(buf@.subrange(m, m + g.text_sha1.len() as int + 1)[g.text_sha1.len() as int] == 34u8);
            assert(buf@[m + g.text_sha1.len() as int] == 34u8);
        }
    }
    let text_sha1 = match read_until(buf, closed, cur, 34u8) {
        Err(e) => { return Err(e); },
        Ok(v) => v,
    };
    proof {
        if hyp {
            lemma_field_unique(buf@, m, text_sha1@, g.text_sha1, 34u8);
        }
        lemma_cat(buf@, ss, m, cur.pos as int); acc = acc + until(text_sha1@, quote());
        m = cur.pos as int;
        off = off + g.text_sha1.len() as int + 1;
    }
    proof {
        if hyp {
            lemma_window(buf@, ss, x, off, off + lit(" "@).len() as int);
            assert(x.subrange(off, off + lit(" "@).len() as int) =~= lit(" "@));
        }
    }
    match expect(buf, closed, cur, " ") {
        Err(e) => { return Err(e); },
        Ok(()) => {},
    }
    proof { lemma_cat(buf@, ss, m, cur.pos as int); acc = acc + lit(" "@); m = cur.pos as int; off = off + lit(" "@).len() as int; }
    let ghost f = PageFields {
        title: Seq::empty(),
        ns: Seq::empty(),
        id: Seq::empty(),
        redirect: None,
        rev_id: Seq::empty(),
        parent_id: None,
        timestamp: Seq::empty(),
        contributor: ContributorFields::Deleted,
        minor: mc@.0,
        comment: mc@.1,
        origin: origin@,
        model: model@,
        format: format@,
        text_bytes: text_bytes@,
        text_sha1: text_sha1@,
        text: None,
        sha1: Seq::empty(),
    };
    proof { assert(acc == revision_tail_bytes(f)); }
    Ok(Ghost(f))
}

pub open spec fn page_end_of(text: Option<Seq<u8>>, sha1: Seq<u8>) -> Seq<u8> {
    text_body_bytes(text) + until(sha1, lt()) + lit("/sha1>\n    </revision>\n  </page>\n"@)
}

/// The text body and the end of the page. Where the bytes of `want` stand
/// at the read position, they are what is read.
fn page_end(buf: &Vec<u8>, closed: bool, cur: &mut Cursor, want: Ghost<(Option<Seq<u8>>, Seq<u8>)>) -> (r: Result<(Option<Vec<u8>>, Ghost<(Option<Seq<u8>>, Seq<u8>)>), ParseError>)
    requires
        old(cur).pos <= buf@.len(),
    ensures
        final(cur).pos <= buf@.len(),
        r matches Ok(x) ==> old(cur).pos <= final(cur).pos && buf@.subrange(old(cur).pos as int, final(cur).pos as int) == page_end_of(x.1@.0, x.1@.1) && field(x.1@.1, lt()) && match x.1@.0 { Some(t) => field(t, lt()) && (x.0 matches Some(b) && b@ == t), None => x.0 is None },
        r == Err::<(Option<Vec<u8>>, Ghost<(Option<Seq<u8>>, Seq<u8>)>), ParseError>(ParseError::NeedInput) ==> !closed,
        present(buf@, old(cur).pos as int, page_end_of(want@.0, want@.1)) && field(want@.1, lt()) && (want@.0 matches Some(t) ==> field(t, lt())) ==> (r matches Ok(x) && x.1@ == want@),
{
    let ghost ss: int = cur.pos as int;
    let ghost g = want@;
    let ghost x = page_end_of(g.0, g.1);
    let ghost hyp = present(buf@, ss, x) && field(g.1, lt()) && (g.0 matches Some(t) ==> field(t, lt()));
    let ghost mut m: int = ss;
    proof {
        if hyp {
            assert(buf@.subrange(ss, ss + x.len() as int)[0] == x[0]);
        }
    }
    let tb = match read_byte(buf, closed, cur) {
        Err(e) => { return Err(e); },
        Ok(b) => b,
    };
    proof { assert(buf@.subrange(m, cur.pos as int) =~= seq![tb]); m = cur.pos as int; }
    let ghost text: Option<Seq<u8>>;
    let mut body: Option<Vec<u8>> = None;
    if tb == 47u8 {
        let l1 = ">\n      <sha1>";
        proof {
            if hyp {
                assert(g.0 is None);
                lemma_window(buf@, ss, x, 1, 1 + lit(l1@).len() as int);
                assert(x.subrange(1, 1 + lit(l1@).len() as int) =~= lit(l1@));
            }
        }
        match expect(buf, closed, cur, l1) {
            Err(e) => { return Err(e); },
            Ok(()) => {},
        }
        proof { lemma_cat(buf@, ss, m, cur.pos as int); m = cur.pos as int; }
        proof { text = None; }
    } else if tb == 120u8 {
        let l2 = "ml:space=\"preserve\">";
        let l3 = "/text>\n      <sha1>";
        let ghost gt = match g.0 { Some(t) => t, None => Seq::empty() };
        proof {
            if hyp {
                assert(g.0 is Some);
                lemma_window(buf@, ss, x, 1, 1 + lit(l2@).len() as int);
                assert(x.subrange(1, 1 + lit(l2@).len() as int) =~= lit(l2@));
            }
        }
        match expect(buf, closed, cur, l2) {
            Err(e) => { return Err(e); },
            Ok(()) => {},
        }
        proof {
            lemma_cat(buf@, ss, m, cur.pos as int);
            m = cur.pos as int;
            if hyp {
                let a = 1 + lit(l2@).len() as int;
                lemma_window(buf@, ss, x, a, a + gt.len() as int + 1);
                assert(x.subrange(a, a + gt.len() as int + 1) =~= until(gt, lt()));
                assert(buf@.subrange(m, m + gt.len() as int + 1)[gt.len() as int] == 60u8);
                assert(buf@[m + gt.len() as int] == 60u8);
            }
        }
        let t = match read_until(buf, closed, cur, 60u8) {
            Err(e) => { return Err(e); },
            Ok(v) => v,
        };
        proof {
            if hyp {
                lemma_field_unique(buf@, m, t@, gt, 60u8);
                let a = 1 + lit(l2@).len() as int + gt.len() as int + 1;
                lemma_window(buf@, ss, x, a, a + lit(l3@).len() as int);
                assert(x.subrange(a, a + lit(l3@).len() as int) =~= lit(l3@));
            }
            lemma_cat(buf@, ss, m, cur.pos as int);
            m = cur.pos as int;
        }
        match expect(buf, closed, cur, l3) {
            Err(e) => { return Err(e); },
            Ok(()) => {},
        }
        proof { lemma_cat(buf@, ss, m, cur.pos as int); m = cur.pos as int; }
        proof { text = Some(t@); }
        body = Some(t);
    } else {
        proof {
            if hyp {
                assert(false);
            }
        }
        return Err(unexpected(cur.at, tb));
    }
    let ghost tbb = text_body_bytes(text);
    proof {
        assert(buf@.subrange(ss, m) =~= tbb);
        if hyp {
            assert(text == g.0);
            lemma_window(buf@, ss, x, tbb.len() as int, tbb.len() as int + g.1.len() as int + 1);
            assert(x.subrange(tbb.len() as int, tbb.len() as int + g.1.len() as int + 1) =~= until(g.1, lt()));
            assert(buf@.subrange(m, m + g.1.len() as int + 1)[g.1.len() as int] == 60u8);
            assert(buf@[m + g.1.len() as int] == 60u8);
        }
    }
    let sha1 = match read_until(buf, closed, cur, 60u8) {
        Err(e) => { return Err(e); },
        Ok(v) => v,
    };
    let le = "/sha1>\n    </revision>\n  </page>\n";
    proof {
        if hyp {
            lemma_field_unique(buf@, m, sha1@, g.1, 60u8);
            let a = tbb.len() as int + g.1.len() as int + 1;
            lemma_window(buf@, ss, x, a, a + lit(le@).len() as int);
            assert(x.subrange(a, a + lit(le@).len() as int) =~= lit(le@));
        }
        lemma_cat(buf@, ss, m, cur.pos as int);
        m = cur.pos as int;
    }
    match expect(buf, closed, cur, le) {
        Err(e) => { return Err(e); },
        Ok(()) => {},
    }
    proof {
        lemma_cat(buf@, ss, m, cur.pos as int);
        assert(buf@.subrange(ss, cur.pos as int) =~= page_end_of(text, sha1@));
    }
    Ok((body, Ghost((text, sha1@))))
}

/// One page: the fields its record is made from, and all of its fields.
/// Where the bytes of the page `want` stand at the read position, that is
/// the page read.
#[verifier::spinoff_prover]
#[verifier::rlimit(100)]
fn page(buf: &Vec<u8>, closed: bool, cur: &mut Cursor, want: Ghost<PageFields>) -> (r: Result<(RawPage, Ghost<PageFields>), ParseError>)
    requires
        old(cur).pos <= buf@.len(),
    ensures
        final(cur).pos <= buf@.len(),
        r matches Ok((raw, f)) ==> old(cur).pos <= final(cur).pos && buf@.subrange(old(cur).pos as int, final(cur).pos as int) == page_bytes(f@) && page_fields_ok(f@) && raw_matches(f@, raw),
        r == Err::<(RawPage, Ghost<PageFields>), ParseError>(ParseError::NeedInput) ==> !closed,
        present(buf@, old(cur).pos as int, page_bytes(want@)) && page_fields_ok(want@) ==> (r matches Ok((raw, f)) && f@ == want@),
{
    let ghost g = want@;
    let ghost x = page_bytes(g);
    let ghost m0 = cur.pos as int;
    let ghost hyp = present(buf@, m0, x) && page_fields_ok(g);
    let ghost hx = page_head_bytes(g);
    let ghost rx = revision_head_bytes(g);
    let ghost cx = contributor_bytes(g.contributor);
    let ghost tx = revision_tail_bytes(g);
    let ghost ex = page_end_bytes(g);
    proof {
        if hyp {
            lemma_window(buf@, m0, x, 0, hx.len() as int);
            assert(x.subrange(0, hx.len() as int) =~= hx);
        }
    }
    let (title, ns, id, red) = match page_head(buf, closed, cur, Ghost((g.title, g.ns, g.id, g.redirect))) {
        Err(e) => { return Err(e); },
        Ok(x) => x,
    };
    let ghost m1 = cur.pos as int;
    proof {
        if hyp {
            let a = hx.len() as int;
            lemma_window(buf@, m0, x, a, a + rx.len() as int);
            assert(x.subrange(a, a + rx.len() as int) =~= rx);
        }
    }
    let (rev_id, rh) = match revision_head(buf, closed, cur, Ghost((g.rev_id, g.parent_id, g.timestamp))) {
        Err(e) => { return Err(e); },
        Ok(x) => x,
    };
    let ghost m2 = cur.pos as int;
    proof {
        if hyp {
            let a = (hx.len() + rx.len()) as int;
            lemma_window(buf@, m0, x, a, a + cx.len() as int);
            assert(x.subrange(a, a + cx.len() as int) =~= cx);
        }
    }
    let (contributor_id, contributor) = match contributor(buf, closed, cur, Ghost(g.contributor)) {
        Err(e) => { return Err(e); },
        Ok(x) => x,
    };
    let ghost m3 = cur.pos as int;
    proof {
        if hyp {
            let a = (hx.len() + rx.len() + cx.len()) as int;
            lemma_window(buf@, m0, x, a, a + tx.len() as int);
            assert(x.subrange(a, a + tx.len() as int) =~= tx);
        }
    }
    let tail = match revision_tail(buf, closed, cur, Ghost(g)) {
        Err(e) => { return Err(e); },
        Ok(x) => x,
    };
    let ghost m4 = cur.pos as int;
    proof {
        if hyp {
            let a = (hx.len() + rx.len() + cx.len() + tx.len()) as int;
            lemma_window(buf@, m0, x, a, a + ex.len() as int);
            assert(x.subrange(a, a + ex.len() as int) =~= ex);
        }
    }
    let (body, end) = match page_end(buf, closed, cur, Ghost((g.text, g.sha1))) {
        Err(e) => { return Err(e); },
        Ok(x) => x,
    };
    let ghost f = PageFields {
        title: title@,
        ns: ns@,
        id: id@,
        redirect: red@,
        rev_id: rev_id@,
        parent_id: rh@.0,
        timestamp: rh@.1,
        contributor: contributor@,
        text: end@.0,
        sha1: end@.1,
        ..tail@
    };
    proof {
        let m5 = cur.pos as int;
        lemma_cat(buf@, m0, m1, m2);
        lemma_cat(buf@, m0, m2, m3);
        lemma_cat(buf@, m0, m3, m4);
        lemma_cat(buf@, m0, m4, m5);
        assert(revision_tail_bytes(f) == revision_tail_bytes(tail@));
        if hyp {
            assert(f == g);
        }
    }
    Ok((RawPage { title, ns, id, rev_id, contributor_id, text: body }, Ghost(f)))
}

/// The number that `b` spells, if it is UTF-8 and spells one.
fn number(b: Vec<u8>) -> (r: Option<i32>)
    ensures
        r == number_of(b@),
{
    match utf8_string(b) {
        None => None,
        Some(s) => {
            let c = chars_of(s.as_str());
            assert(c@.subrange(0, c@.len() as int) =~= c@);
            parse_i32(&c, 0, c.len())
        },
    }
}

/// The record that a page's fields give, or why they give none.
fn page_record(raw: RawPage, f: Ghost<PageFields>) -> (r: Result<Page, ParseError>)
    requires
        raw_matches(f@, raw),
    ensures
        match r {
            Ok(p) => page_value(f@) == Some(p@),
            Err(e) => page_value(f@) is None && e != ParseError::NeedInput,
        },
{
    let title = match utf8_string(raw.title) {
        None => { return Err(ParseError::Encoding); },
        Some(t) => t,
    };
    let ns = match number(raw.ns) {
        None => { return Err(ParseError::BadNumber); },
        Some(v) => v,
    };
    let id = match number(raw.id) {
        None => { return Err(ParseError::BadNumber); },
        Some(v) => v,
    };
    let rev_id = match number(raw.rev_id) {
        None => { return Err(ParseError::BadNumber); },
        Some(v) => v,
    };
    let contributor = match raw.contributor_id {
        None => None,
        Some(c) => match number(c) {
            None => { return Err(ParseError::BadNumber); },
            Some(v) => Some(v),
        },
    };
    let text = match raw.text {
        None => String::new(),
        Some(t) => match utf8_string(t) {
            None => { return Err(ParseError::Encoding); },
            Some(s) => s,
        },
    };
    Ok(Page { title, ns: Some(ns), id: Some(id), rev_id: Some(rev_id), rev_contrib_id: contributor, rev_text: text })
}

pub open spec fn namespaces_end() -> Seq<u8> {
    lit("    "@) + seq![60u8] + lit("/namespaces>\n"@)
}

pub open spec fn line_view(x: Option<Ghost<NamespaceFields>>) -> Option<NamespaceFields> {
    match x {
        Some(n) => Some(n@),
        None => None,
    }
}

pub open spec fn namespace_line_of(n: Option<NamespaceFields>) -> Seq<u8> {
    match n {
        Some(n) => namespace_bytes(n),
        None => namespaces_end(),
    }
}

/// One line of the `<namespaces>` block: a `<namespace>`, or the closing
/// tag (`None`). Where the bytes of the line `want` stand at the read
/// position, that is the line read.
#[verifier::spinoff_prover]
#[verifier::rlimit(100)]
fn namespace_line(buf: &Vec<u8>, closed: bool, cur: &mut Cursor, want: Ghost<Option<NamespaceFields>>) -> (r: Result<Option<Ghost<NamespaceFields>>, ParseError>)
    requires
        old(cur).pos <= buf@.len(),
    ensures
        final(cur).pos <= buf@.len(),
        r matches Ok(x) ==> old(cur).pos <= final(cur).pos && buf@.subrange(old(cur).pos as int, final(cur).pos as int) == namespace_line_of(line_view(x)) && (line_view(x) matches Some(n) ==> namespace_ok(n)),
        r == Err::<Option<Ghost<NamespaceFields>>, ParseError>(ParseError::NeedInput) ==> !closed,
        present(buf@, old(cur).pos as int, namespace_line_of(want@)) && (want@ matches Some(n) ==> namespace_ok(n)) ==> (r matches Ok(x) && line_view(x) == want@),
{
    let ghost ss: int = cur.pos as int;
    let ghost g = want@;
    let ghost x = namespace_line_of(g);
    let ghost hyp = present(buf@, ss, x) && (g matches Some(n) ==> namespace_ok(n));
    let ghost e = match g {
        Some(n) => n,
        None => NamespaceFields { key: Seq::empty(), case: Seq::empty(), name: None },
    };
    let ghost mut m: int = ss;
    let ghost mut off: int = 0;
    proof {
        if hyp {
            lemma_window(buf@, ss, x, off, off + lit("    "@).len() as int);
            assert(x.subrange(off, off + lit("    "@).len() as int) =~= lit("    "@));
        }
    }
    match expect(buf, closed, cur, "    ") {
        Err(e) => { return Err(e); },
        Ok(()) => {},
    }
    proof { lemma_cat(buf@, ss, m, cur.pos as int); m = cur.pos as int; off = off + lit("    "@).len() as int; }
    proof {
        if hyp {
            lemma_window(buf@, ss, x, off, off + 1);
            assert(x.subrange(off, off + 1)[0] == x[off]);
            assert(buf@.subrange(m, m + 1)[0] == x[off]);
            assert(x[off] == x[off]);
        }
    }
    let first = match read_byte(buf, closed, cur) {
        Err(e) => { return Err(e); },
        Ok(b) => b,
    };
    proof { lemma_cat(buf@, ss, m, cur.pos as int); assert(buf@.subrange(m, cur.pos as int) =~= seq![first]); m = cur.pos as int; off = off + 1; }
    if first == 60u8 {
        proof {
            if hyp {
                assert(g is None);
            }
        }
        proof {
            if hyp {
                lemma_window(buf@, ss, x, off, off + lit("/namespaces>\n"@).len() as int);
                assert(x.subrange(off, off + lit("/namespaces>\n"@).len() as int) =~= lit("/namespaces>\n"@));
            }
        }
        match expect(buf, closed, cur, "/namespaces>\n") {
            Err(e) => { return Err(e); },
            Ok(()) => {},
        }
        proof { lemma_cat(buf@, ss, m, cur.pos as int); m = cur.pos as int; off = off + lit("/namespaces>\n"@).len() as int; }
        proof {
            assert(buf@.subrange(ss, m) =~= namespaces_end());
        }
        return Ok(None);
    }
    if first != 32u8 {
        proof {
            if hyp {
                assert(false);
            }
        }
        return Err(unexpected(cur.at, first));
    }
    proof {
        if hyp {
            assert(g is Some);
        }
    }
    proof {
        if hyp {
            lemma_window(buf@, ss, x, off, off + lit(" <namespace key=\""@).len() as int);
            assert(x.subrange(off, off + lit(" <namespace key=\""@).len() as int) =~= lit(" <namespace key=\""@));
        }
    }
    match expect(buf, closed, cur, " <namespace key=\"") {
        Err(e) => { return Err(e); },
        Ok(()) => {},
    }
    proof { lemma_cat(buf@, ss, m, cur.pos as int); m = cur.pos as int; off = off + lit(" <namespace key=\""@).len() as int; }
    proof {
        if hyp {
            lemma_window(buf@, ss, x, off, off + e.key.len() as int + 1);
            assert(x.subrange(off, off + e.key.len() as int + 1) =~= until(e.key, quote()));
            assert(buf@.subrange(m, m + e.key.len() as int + 1)[e.key.len() as int] == 34u8);
            assert(buf@[m + e.key.len() as int] == 34u8);
        }
    }
    let key = match read_until(buf, closed, cur, 34u8) {
        Err(e) => { return Err(e); },
        Ok(v) => v,
    };
    proof {
        if hyp {
            lemma_field_unique(buf@, m, key@, e.key, 34u8);
        }
        lemma_cat(buf@, ss, m, cur.pos as int);
        m = cur.pos as int;
        off = off + e.key.len() as int + 1;
    }
    proof {
        if hyp {
            lemma_window(buf@, ss, x, off, off + lit(" case=\""@).len() as int);
            assert(x.subrange(off, off + lit(" case=\""@).len() as int) =~= lit(" case=\""@));
        }
    }
    match expect(buf, closed, cur, " case=\"") {
        Err(e) => { return Err(e); },
        Ok(()) => {},
    }
    proof { lemma_cat(buf@, ss, m, cur.pos as int); m = cur.pos as int; off = off + lit(" case=\""@).len() as int; }
    proof {
        if hyp {
            lemma_window(buf@, ss, x, off, off + e.case.len() as int + 1);
            assert(x.subrange(off, off + e.case.len() as int + 1) =~= until(e.case, quote()));
            assert(buf@.subrange(m, m + e.case.len() as int + 1)[e.case.len() as int] == 34u8);
            assert(buf@[m + e.case.len() as int] == 34u8);
        }
    }
    let case = match read_until(buf, closed, cur, 34u8) {
        Err(e) => { return Err(e); },
        Ok(v) => v,
    };
    proof {
        if hyp {
            lemma_field_unique(buf@, m, case@, e.case, 34u8);
        }
        lemma_cat(buf@, ss, m, cur.pos as int);
        m = cur.pos as int;
        off = off + e.case.len() as int + 1;
    }
    proof {
        if hyp {
            lemma_window(buf@, ss, x, off, off + 1);
            assert(x.subrange(off, off + 1)[0] == x[off]);
            assert(buf@.subrange(m, m + 1)[0] == x[off]);
            assert(x[off] == x[off]);
        }
    }
    let next = match read_byte(buf, closed, cur) {
        Err(e) => { return Err(e); },
        Ok(b) => b,
    };
    proof { lemma_cat(buf@, ss, m, cur.pos as int); assert(buf@.subrange(m, cur.pos as int) =~= seq![next]); m = cur.pos as int; off = off + 1; }
    let ghost name: Option<Seq<u8>>;
    if next == 62u8 {
        let ghost gname = match e.name {
            Some(v) => v,
            None => Seq::empty(),
        };
        proof {
            if hyp {
                assert(e.name is Some);
            }
        }
        proof {
            if hyp {
                lemma_window(buf@, ss, x, off, off + gname.len() as int + 1);
                assert(x.subrange(off, off + gname.len() as int + 1) =~= until(gname, lt()));
                assert(buf@.subrange(m, m + gname.len() as int + 1)[gname.len() as int] == 60u8);
                assert(buf@[m + gname.len() as int] == 60u8);
            }
        }
        let nm = match read_until(buf, closed, cur, 60u8) {
            Err(e) => { return Err(e); },
            Ok(v) => v,
        };
        proof {
            if hyp {
                lemma_field_unique(buf@, m, nm@, gname, 60u8);
            }
            lemma_cat(buf@, ss, m, cur.pos as int);
            m = cur.pos as int;
            off = off + gname.len() as int + 1;
        }
        proof {
            if hyp {
                lemma_window(buf@, ss, x, off, off + lit("/namespace>\n"@).len() as int);
                assert(x.subrange(off, off + lit("/namespace>\n"@).len() as int) =~= lit("/namespace>\n"@));
            }
        }
        match expect(buf, closed, cur, "/namespace>\n") {
            Err(e) => { return Err(e); },
            Ok(()) => {},
        }
        proof { lemma_cat(buf@, ss, m, cur.pos as int); m = cur.pos as int; off = off + lit("/namespace>\n"@).len() as int; }
        proof { name = Some(nm@); }
    } else if next == 32u8 {
        proof {
            if hyp {
                assert(e.name is None);
            }
        }
        proof {
            if hyp {
                lemma_window(buf@, ss, x, off, off + lit("/>\n"@).len() as int);
                assert(x.subrange(off, off + lit("/>\n"@).len() as int) =~= lit("/>\n"@));
            }
        }
        match expect(buf, closed, cur, "/>\n") {
            Err(e) => { return Err(e); },
            Ok(()) => {},
        }
        proof { lemma_cat(buf@, ss, m, cur.pos as int); m = cur.pos as int; off = off + lit("/>\n"@).len() as int; }
        proof { name = None; }
    } else {
        proof {
            if hyp {
                assert(false);
            }
        }
        return Err(unexpected(cur.at, next));
    }
    let ghost nf = NamespaceFields { key: key@, case: case@, name };
    proof {
        assert(buf@.subrange(ss, m) =~= namespace_bytes(nf));
        if hyp {
            assert(nf == e);
        }
    }
    Ok(Some(Ghost(nf)))
}

/// The strict reader's state.
pub struct QwiktReader {
    buf: Vec<u8>,
    base: usize,
    pos: usize,
    at: Position,
    input: Ghost<Seq<u8>>,
    initialized: bool,
    closed: bool,
    finished: bool,
}

/// The mathematical value of a [`QwiktReader`]: everything fed so far, how
/// much of it has been consumed, and where the reader stands.
pub struct QwiktView {
    pub input: Seq<u8>,
    pub consumed: nat,
    pub initialized: bool,
    pub closed: bool,
    pub finished: bool,
}

impl View for QwiktReader {
    type V = QwiktView;

    closed spec fn view(&self) -> QwiktView {
        QwiktView {
            input: self.input@,
            consumed: (self.base + self.pos) as nat,
            initialized: self.initialized,
            closed: self.closed,
            finished: self.finished,
        }
    }
}

/// What stands before the next page: the dump header on the first call,
/// nothing after it.
pub open spec fn lead_in(initialized: bool, h: HeaderFields) -> Seq<u8> {
    if initialized {
        Seq::empty()
    } else {
        header_bytes(h)
    }
}

/// The input at `at` holds what comes before the next page and then a
/// well-formed page whose fields give a record.
pub open spec fn page_ahead(initialized: bool, input: Seq<u8>, at: int, h: HeaderFields, f: PageFields) -> bool {
    &&& initialized || header_ok(h)
    &&& page_fields_ok(f)
    &&& page_value(f) is Some
    &&& present(input, at, lead_in(initialized, h) + page_bytes(f))
}

/// What a successful call of `next_page` consumed: the header first, on the
/// first call; then one page holding `p`.
pub open spec fn consumed_page(
    initialized: bool,
    consumed: Seq<u8>,
    p: PageView,
) -> bool {
    exists|mid: int|
        0 <= mid <= consumed.len() && (if initialized {
            mid == 0
        } else {
            is_header(consumed.subrange(0, mid))
        }) && #[trigger] is_page(consumed.subrange(mid, consumed.len() as int), p)
}

/// What a call of `next_page` that found the end of the pages consumed: the
/// header first, on the first call; then nothing, and what follows is a `<`
/// (the dump's closing tag) or, with the input closed, nothing at all.
pub open spec fn consumed_end(initialized: bool, consumed: Seq<u8>, rest: Seq<u8>, closed: bool) -> bool {
    &&& if initialized {
        consumed.len() == 0
    } else {
        is_header(consumed)
    }
    &&& (rest.len() > 0 && rest[0] == 60u8) || (rest.len() == 0 && closed)
}

impl QwiktReader {
    pub closed spec fn wf(&self) -> bool {
        &&& self.buf@ == self.input@.subrange(self.base as int, self.input@.len() as int)
        &&& self.base <= self.input@.len()
        &&& self.pos <= self.buf@.len()
        &&& self.base + self.buf@.len() <= usize::MAX
    }

    /// A reader that has been fed nothing yet.
    pub fn new() -> (r: QwiktReader)
        ensures
            r.wf(),
            r@ == (QwiktView {
                input: Seq::empty(),
                consumed: 0,
                initialized: false,
                closed: false,
                finished: false,
            }),
    {
        let r = QwiktReader {
            buf: Vec::new(),
            base: 0,
            pos: 0,
            at: Position::new(),
            input: Ghost(Seq::empty()),
            initialized: false,
            closed: false,
            finished: false,
        };
        assert(r.buf@ =~= r.input@.subrange(0, 0));
        r
    }

    /// Adds the next bytes of the dump, dropping those already consumed.
    pub fn feed(&mut self, bytes: &[u8])
        requires
            old(self).wf(),
            !old(self)@.closed,
            old(self)@.input.len() + bytes@.len() <= usize::MAX,
        ensures
            final(self).wf(),
            final(self)@ == (QwiktView { input: old(self)@.input + bytes@, ..old(self)@ }),
    {
        let ghost old_input = self.input@;
        let mut kept: Vec<u8> = Vec::new();
        let mut i = self.pos;
        while i < self.buf.len()
            invariant
                self.pos <= i <= self.buf@.len(),
                kept@ == self.buf@.subrange(self.pos as int, i as int),
            decreases self.buf@.len() - i,
        {
            kept.push(self.buf[i]);
            i += 1;
            assert(kept@ =~= self.buf@.subrange(self.pos as int, i as int));
        }
        let mut j: usize = 0;
        while j < bytes.len()
            invariant
                j <= bytes@.len(),
                kept@ == self.buf@.subrange(self.pos as int, self.buf@.len() as int)
                    + bytes@.subrange(0, j as int),
            decreases bytes@.len() - j,
        {
            kept.push(bytes[j]);
            j += 1;
            assert(kept@ =~= self.buf@.subrange(self.pos as int, self.buf@.len() as int)
                + bytes@.subrange(0, j as int));
        }
        assert(bytes@.subrange(0, j as int) =~= bytes@);
        self.base = self.base + self.pos;
        self.pos = 0;
        self.buf = kept;
        self.input = Ghost(old_input + bytes@);
        assert(self.buf@ =~= self.input@.subrange(self.base as int, self.input@.len() as int));
    }

    /// Marks the end of the input: no more bytes will be fed.
    pub fn close(&mut self)
        requires
            old(self).wf(),
        ensures
            final(self).wf(),
            final(self)@ == (QwiktView { closed: true, ..old(self)@ }),
    {
        self.closed = true;
    }

    /// Reads the next page: on the first call the dump header first. A `<`
    /// where a page would start, or the end of closed input there, ends the
    /// pages: `Ok(None)`, after which every call is refused with
    /// `AfterEnd`. Input that ends inside the header or a page gives
    /// `NeedInput` while more may be fed, `UnexpectedEof` once closed. On any
    /// error nothing is consumed. Where the bytes held do hold the header
    /// (on the first call) and then a well-formed page whose fields decode,
    /// that page is read.
    #[verifier::spinoff_prover]
    #[verifier::rlimit(100)]
    pub fn next_page(&mut self) -> (r: Result<Option<Page>, ParseError>)
        requires
            old(self).wf(),
        ensures
            final(self).wf(),
            final(self)@.input == old(self)@.input,
            final(self)@.closed == old(self)@.closed,
            old(self)@.consumed <= final(self)@.consumed <= final(self)@.input.len(),
            old(self)@.finished ==> r == Err::<Option<Page>, ParseError>(ParseError::AfterEnd),
            r is Err ==> final(self)@ == old(self)@,
            r == Err::<Option<Page>, ParseError>(ParseError::NeedInput) ==> !old(self)@.closed,
            r matches Ok(Some(p)) ==> !final(self)@.finished && final(self)@.initialized
                && consumed_page(
                old(self)@.initialized,
                old(self)@.input.subrange(old(self)@.consumed as int, final(self)@.consumed as int),
                p@,
            ),
            !old(self)@.finished && (exists|h: HeaderFields, f: PageFields|
                #[trigger] page_ahead(
                    old(self)@.initialized,
                    old(self)@.input,
                    old(self)@.consumed as int,
                    h,
                    f,
                )) ==> r matches Ok(Some(_)),
            old(self)@.initialized && !old(self)@.finished && old(self)@.consumed < old(
                self,
            )@.input.len() && old(self)@.input[old(self)@.consumed as int] == 60u8 ==> r matches Ok(
                None,
            ),
            old(self)@.initialized && !old(self)@.finished && old(self)@.consumed == old(
                self,
            )@.input.len() ==> if old(self)@.closed {
                r matches Ok(None)
            } else {
                r == Err::<Option<Page>, ParseError>(ParseError::NeedInput)
            },
            r matches Ok(None) ==> final(self)@.finished && final(self)@.initialized && consumed_end(
                old(self)@.initialized,
                old(self)@.input.subrange(old(self)@.consumed as int, final(self)@.consumed as int),
                old(self)@.input.subrange(final(self)@.consumed as int, old(self)@.input.len() as int),
                old(self)@.closed,
            ),
    {
        if self.finished {
            return Err(ParseError::AfterEnd);
        }
        let ghost input = self.input@;
        let ghost start = self.pos as int;
        let mut cur = Cursor { pos: self.pos, at: self.at };
        let ghost ahead = exists|h: HeaderFields, f: PageFields|
            #[trigger] page_ahead(self.initialized, input, self.base + start, h, f);
        let ghost hf: (HeaderFields, PageFields) = if ahead {
            choose|h: HeaderFields, f: PageFields|
                #[trigger] page_ahead(self.initialized, input, self.base + start, h, f)
        } else {
            arbitrary()
        };
        let ghost lead = lead_in(self.initialized, hf.0);
        let ghost whole = lead + page_bytes(hf.1);
        proof {
            if ahead {
                lemma_ahead(self.initialized, input, self.base as int, self.buf@, start, hf.0, hf.1);
            }
        }
        if !self.initialized {
            match Self::header(&self.buf, self.closed, &mut cur, Ghost(hf.0)) {
                Err(e) => { return Err(e); },
                Ok(()) => {},
            }
        }
        let ghost mid = cur.pos as int;
        proof {
            if self.initialized {
                assert(self.buf@.subrange(start, mid) =~= Seq::<u8>::empty());
            }
            assert(input.subrange(self.base + start, self.base + mid) =~= self.buf@.subrange(start, mid));
        }
        proof {
            if ahead {
                assert(mid == start + lead.len());
            }
        }
        if cur.pos == self.buf.len() {
            if !self.closed {
                return Err(ParseError::NeedInput);
            }
            self.pos = cur.pos;
            self.at = cur.at;
            self.initialized = true;
            self.finished = true;
            proof {
                assert(input.subrange(self.base + mid, input.len() as int) =~= Seq::<u8>::empty());
            }
            return Ok(None);
        }
        if self.buf[cur.pos] == 60u8 {
            self.pos = cur.pos;
            self.at = cur.at;
            self.initialized = true;
            self.finished = true;
            proof {
                assert(input.subrange(self.base + mid, input.len() as int)[0] == self.buf@[mid]);
            }
            return Ok(None);
        }
        let (raw, f) = match page(&self.buf, self.closed, &mut cur, Ghost(hf.1)) {
            Err(e) => { return Err(e); },
            Ok(x) => x,
        };
        let p = match page_record(raw, f) {
            Err(e) => { return Err(e); },
            Ok(p) => p,
        };
        let ghost end = cur.pos as int;
        proof {
            let consumed = input.subrange(self.base + start, self.base + end);
            let k = mid - start;
            assert(consumed.subrange(0, k) =~= self.buf@.subrange(start, mid));
            assert(consumed.subrange(k, consumed.len() as int) =~= self.buf@.subrange(mid, end));
            assert(is_page(consumed.subrange(k, consumed.len() as int), p@));
        }
        self.pos = cur.pos;
        self.at = cur.at;
        self.initialized = true;
        Ok(Some(p))
    }

    /// Whether the end of the pages has been reported.
    pub fn is_finished(&self) -> (r: bool)
        ensures
            r == self@.finished,
    {
        self.finished
    }

    /// The dump header. Where the bytes of the header `want` stand at the
    /// read position, the header is read, to its end.
    #[verifier::spinoff_prover]
    #[verifier::rlimit(100)]
    fn header(buf: &Vec<u8>, closed: bool, cur: &mut Cursor, want: Ghost<HeaderFields>) -> (r: Result<(), ParseError>)
        requires
            old(cur).pos <= buf@.len(),
        ensures
            final(cur).pos <= buf@.len(),
            r is Ok ==> old(cur).pos <= final(cur).pos && is_header(
                buf@.subrange(old(cur).pos as int, final(cur).pos as int),
            ),
            r == Err::<(), ParseError>(ParseError::NeedInput) ==> !closed,
            present(buf@, old(cur).pos as int, header_bytes(want@)) && header_ok(want@) ==> (r is Ok
                && final(cur).pos == old(cur).pos + header_bytes(want@).len()),
    {
        let ghost ss: int = cur.pos as int;
        let ghost st = ss;
        let ghost g = want@;
        let ghost x = header_bytes(g);
        let ghost hyp = present(buf@, ss, x) && header_ok(g);
        let ghost mut m: int = ss;
        let ghost mut off: int = 0;
        let ghost mut acc: Seq<u8> = Seq::empty();
        proof { assert(buf@.subrange(ss, m) =~= acc); }
        proof {
            if hyp {
                lemma_window(buf@, ss, x, off, off + lit("<mediawiki xmlns=\"http://www.mediawiki.org/xml/export-0.11/\" xmlns:xsi=\"http://www.w3.org/2001/XMLSchema-instance\" xsi:schemaLocation=\"http://www.mediawiki.org/xml/export-0.11/ http://www.mediawiki.org/xml/export-0.11.xsd\" version=\"0.11\" xml:lang=\""@).len() as int);
                assert(x.subrange(off, off + lit("<mediawiki xmlns=\"http://www.mediawiki.org/xml/export-0.11/\" xmlns:xsi=\"http://www.w3.org/2001/XMLSchema-instance\" xsi:schemaLocation=\"http://www.mediawiki.org/xml/export-0.11/ http://www.mediawiki.org/xml/export-0.11.xsd\" version=\"0.11\" xml:lang=\""@).len() as int) =~= lit("<mediawiki xmlns=\"http://www.mediawiki.org/xml/export-0.11/\" xmlns:xsi=\"http://www.w3.org/2001/XMLSchema-instance\" xsi:schemaLocation=\"http://www.mediawiki.org/xml/export-0.11/ http://www.mediawiki.org/xml/export-0.11.xsd\" version=\"0.11\" xml:lang=\""@));
            }
        }
        match expect(buf, closed, cur, "<mediawiki xmlns=\"http://www.mediawiki.org/xml/export-0.11/\" xmlns:xsi=\"http://www.w3.org/2001/XMLSchema-instance\" xsi:schemaLocation=\"http://www.mediawiki.org/xml/export-0.11/ http://www.mediawiki.org/xml/export-0.11.xsd\" version=\"0.11\" xml:lang=\"") {
            Err(e) => { return Err(e); },
            Ok(()) => {},
        }
        proof { lemma_cat(buf@, ss, m, cur.pos as int); acc = acc + lit("<mediawiki xmlns=\"http://www.mediawiki.org/xml/export-0.11/\" xmlns:xsi=\"http://www.w3.org/2001/XMLSchema-instance\" xsi:schemaLocation=\"http://www.mediawiki.org/xml/export-0.11/ http://www.mediawiki.org/xml/export-0.11.xsd\" version=\"0.11\" xml:lang=\""@); m = cur.pos as int; off = off + lit("<mediawiki xmlns=\"http://www.mediawiki.org/xml/export-0.11/\" xmlns:xsi=\"http://www.w3.org/2001/XMLSchema-instance\" xsi:schemaLocation=\"http://www.mediawiki.org/xml/export-0.11/ http://www.mediawiki.org/xml/export-0.11.xsd\" version=\"0.11\" xml:lang=\""@).len() as int; }
        proof {
            if hyp {
                lemma_window(buf@, ss, x, off, off + g.lang.len() as int + 1);
                assert(x.subrange(off, off + g.lang.len() as int + 1) =~= until(g.lang, quote()));
                assert(buf@.subrange(m, m + g.lang.len() as int + 1)[g.lang.len() as int] == 34u8);
                assert(buf@[m + g.lang.len() as int] == 34u8);
            }
        }
        let lang = match read_until(buf, closed, cur, 34u8) {
            Err(e) => { return Err(e); },
            Ok(v) => v,
        };
        proof {
            if hyp {
                lemma_field_unique(buf@, m, lang@, g.lang, 34u8);
            }
            lemma_cat(buf@, ss, m, cur.pos as int); acc = acc + until(lang@, quote());
            m = cur.pos as int;
            off = off + g.lang.len() as int + 1;
        }
        proof {
            if hyp {
                lemma_window(buf@, ss, x, off, off + lit(">\n"@).len() as int);
                assert(x.subrange(off, off + lit(">\n"@).len() as int) =~= lit(">\n"@));
            }
        }
        match expect(buf, closed, cur, ">\n") {
            Err(e) => { return Err(e); },
            Ok(()) => {},
        }
        proof { lemma_cat(buf@, ss, m, cur.pos as int); acc = acc + lit(">\n"@); m = cur.pos as int; off = off + lit(">\n"@).len() as int; }
        proof {
            if hyp {
                lemma_window(buf@, ss, x, off, off + lit("  <siteinfo>\n    <sitename>"@).len() as int);
                assert(x.subrange(off, off + lit("  <siteinfo>\n    <sitename>"@).len() as int) =~= lit("  <siteinfo>\n    <sitename>"@));
            }
        }
        match expect(buf, closed, cur, "  <siteinfo>\n    <sitename>") {
            Err(e) => { return Err(e); },
            Ok(()) => {},
        }
        proof { lemma_cat(buf@, ss, m, cur.pos as int); acc = acc + lit("  <siteinfo>\n    <sitename>"@); m = cur.pos as int; off = off + lit("  <siteinfo>\n    <sitename>"@).len() as int; }
        proof {
            if hyp {
                lemma_window(buf@, ss, x, off, off + g.sitename.len() as int + 1);
                assert(x.subrange(off, off + g.sitename.len() as int + 1) =~= until(g.sitename, lt()));
                assert(buf@.subrange(m, m + g.sitename.len() as int + 1)[g.sitename.len() as int] == 60u8);
                assert(buf@[m + g.sitename.len() as int] == 60u8);
            }
        }
        let sitename = match read_until(buf, closed, cur, 60u8) {
            Err(e) => { return Err(e); },
            Ok(v) => v,
        };
        proof {
            if hyp {
                lemma_field_unique(buf@, m, sitename@, g.sitename, 60u8);
            }
            lemma_cat(buf@, ss, m, cur.pos as int); acc = acc + until(sitename@, lt());
            m = cur.pos as int;
            off = off + g.sitename.len() as int + 1;
        }
        proof {
            if hyp {
                lemma_window(buf@, ss, x, off, off + lit("/sitename>\n    <dbname>"@).len() as int);
                assert(x.subrange(off, off + lit("/sitename>\n    <dbname>"@).len() as int) =~= lit("/sitename>\n    <dbname>"@));
            }
        }
        match expect(buf, closed, cur, "/sitename>\n    <dbname>") {
            Err(e) => { return Err(e); },
            Ok(()) => {},
        }
        proof { lemma_cat(buf@, ss, m, cur.pos as int); acc = acc + lit("/sitename>\n    <dbname>"@); m = cur.pos as int; off = off + lit("/sitename>\n    <dbname>"@).len() as int; }
        proof {
            if hyp {
                lemma_window(buf@, ss, x, off, off + g.dbname.len() as int + 1);
                assert(x.subrange(off, off + g.dbname.len() as int + 1) =~= until(g.dbname, lt()));
                assert(buf@.subrange(m, m + g.dbname.len() as int + 1)[g.dbname.len() as int] == 60u8);
                assert(buf@[m + g.dbname.len() as int] == 60u8);
            }
        }
        let dbname = match read_until(buf, closed, cur, 60u8) {
            Err(e) => { return Err(e); },
            Ok(v) => v,
        };
        proof {
            if hyp {
                lemma_field_unique(buf@, m, dbname@, g.dbname, 60u8);
            }
            lemma_cat(buf@, ss, m, cur.pos as int); acc = acc + until(dbname@, lt());
            m = cur.pos as int;
            off = off + g.dbname.len() as int + 1;
        }
        proof {
            if hyp {
                lemma_window(buf@, ss, x, off, off + lit("/dbname>\n    <base>"@).len() as int);
                assert(x.subrange(off, off + lit("/dbname>\n    <base>"@).len() as int) =~= lit("/dbname>\n    <base>"@));
            }
        }
        match expect(buf, closed, cur, "/dbname>\n    <base>") {
            Err(e) => { return Err(e); },
            Ok(()) => {},
        }
        proof { lemma_cat(buf@, ss, m, cur.pos as int); acc = acc + lit("/dbname>\n    <base>"@); m = cur.pos as int; off = off + lit("/dbname>\n    <base>"@).len() as int; }
        proof {
            if hyp {
                lemma_window(buf@, ss, x, off, off + g.base.len() as int + 1);
                assert(x.subrange(off, off + g.base.len() as int + 1) =~= until(g.base, lt()));
                assert(buf@.subrange(m, m + g.base.len() as int + 1)[g.base.len() as int] == 60u8);
                assert(buf@[m + g.base.len() as int] == 60u8);
            }
        }
        let base = match read_until(buf, closed, cur, 60u8) {
            Err(e) => { return Err(e); },
            Ok(v) => v,
        };
        proof {
            if hyp {
                lemma_field_unique(buf@, m, base@, g.base, 60u8);
            }
            lemma_cat(buf@, ss, m, cur.pos as int); acc = acc + until(base@, lt());
            m = cur.pos as int;
            off = off + g.base.len() as int + 1;
        }
        proof {
            if hyp {
                lemma_window(buf@, ss, x, off, off + lit("/base>\n    <generator>MediaWiki "@).len() as int);
                assert(x.subrange(off, off + lit("/base>\n    <generator>MediaWiki "@).len() as int) =~= lit("/base>\n    <generator>MediaWiki "@));
            }
        }
        match expect(buf, closed, cur, "/base>\n    <generator>MediaWiki ") {
            Err(e) => { return Err(e); },
            Ok(()) => {},
        }
        proof { lemma_cat(buf@, ss, m, cur.pos as int); acc = acc + lit("/base>\n    <generator>MediaWiki "@); m = cur.pos as int; off = off + lit("/base>\n    <generator>MediaWiki "@).len() as int; }
        proof {
            if hyp {
                lemma_window(buf@, ss, x, off, off + g.generator.len() as int + 1);
                assert(x.subrange(off, off + g.generator.len() as int + 1) =~= until(g.generator, lt()));
                assert(buf@.subrange(m, m + g.generator.len() as int + 1)[g.generator.len() as int] == 60u8);
                assert(buf@[m + g.generator.len() as int] == 60u8);
            }
        }
        let generator = match read_until(buf, closed, cur, 60u8) {
            Err(e) => { return Err(e); },
            Ok(v) => v,
        };
        proof {
            if hyp {
                lemma_field_unique(buf@, m, generator@, g.generator, 60u8);
            }
            lemma_cat(buf@, ss, m, cur.pos as int); acc = acc + until(generator@, lt());
            m = cur.pos as int;
            off = off + g.generator.len() as int + 1;
        }
        proof {
            if hyp {
                lemma_window(buf@, ss, x, off, off + lit("/generator>\n    <case>case-sensitive</case>\n    <namespaces>\n"@).len() as int);
                assert(x.subrange(off, off + lit("/generator>\n    <case>case-sensitive</case>\n    <namespaces>\n"@).len() as int) =~= lit("/generator>\n    <case>case-sensitive</case>\n    <namespaces>\n"@));
            }
        }
        match expect(buf, closed, cur, "/generator>\n    <case>case-sensitive</case>\n    <namespaces>\n") {
            Err(e) => { return Err(e); },
            Ok(()) => {},
        }
        proof { lemma_cat(buf@, ss, m, cur.pos as int); acc = acc + lit("/generator>\n    <case>case-sensitive</case>\n    <namespaces>\n"@); m = cur.pos as int; off = off + lit("/generator>\n    <case>case-sensitive</case>\n    <namespaces>\n"@).len() as int; }
        let ghost before_ns = acc;
        let ghost n = g.namespaces.len() as int;
        let ghost tail_x = namespaces_end() + lit("  </siteinfo>\n"@);
        proof {
            if hyp {
                let nb = namespaces_bytes(g.namespaces);
                lemma_window(buf@, ss, x, off, x.len() as int);
                assert(x.subrange(off, x.len() as int) =~= nb + tail_x);
                assert(g.namespaces.subrange(0, n) =~= g.namespaces);
            }
        }
        let ghost mut nss: Seq<NamespaceFields> = Seq::empty();
        loop
            invariant_except_break
                buf@.subrange(st, m) == before_ns + namespaces_bytes(nss),
                hyp ==> present(buf@, m, namespaces_bytes(g.namespaces.subrange(nss.len() as int, n)) + tail_x),
            invariant
                0 <= st <= m == cur.pos <= buf@.len(),
                st == old(cur).pos,
                g == want@,
                hyp == (present(buf@, st, header_bytes(g)) && header_ok(g)),
                n == g.namespaces.len(),
                tail_x == namespaces_end() + lit("  </siteinfo>\n"@),
                forall|i: int| 0 <= i < nss.len() ==> namespace_ok(#[trigger] nss[i]),
                hyp ==> nss.len() <= n && nss == g.namespaces.subrange(0, nss.len() as int),
            ensures
                buf@.subrange(st, m) == before_ns + namespaces_bytes(nss) + namespaces_end(),
                hyp ==> nss == g.namespaces && present(buf@, m, lit("  </siteinfo>\n"@)),
            decreases buf@.len() - cur.pos,
        {
            let ghost line_start = m;
            let ghost k = nss.len() as int;
            let ghost rest = g.namespaces.subrange(k, n);
            let ghost want_line = if k < n { Some(rest[0]) } else { None };
            proof {
                if hyp && k < n {
                    lemma_namespaces_concat(seq![rest[0]], rest.subrange(1, rest.len() as int));
                    assert(seq![rest[0]] + rest.subrange(1, rest.len() as int) =~= rest);
                    lemma_namespaces_single(rest[0]);
                    let y = namespaces_bytes(rest) + tail_x;
                    lemma_window(buf@, m, y, 0, namespace_bytes(rest[0]).len() as int);
                    assert(y.subrange(0, namespace_bytes(rest[0]).len() as int) =~= namespace_bytes(rest[0]));
                    assert(rest[0] == g.namespaces[k]);
                }
                if hyp && k == n {
                    assert(rest =~= Seq::<NamespaceFields>::empty());
                    let y = namespaces_bytes(rest) + tail_x;
                    lemma_window(buf@, m, y, 0, namespaces_end().len() as int);
                    assert(y.subrange(0, namespaces_end().len() as int) =~= namespaces_end());
                }
            }
            let line = match namespace_line(buf, closed, cur, Ghost(want_line)) {
                Err(e) => { return Err(e); },
                Ok(l) => l,
            };
            proof {
                lemma_cat(buf@, st, line_start, cur.pos as int);
                if hyp {
                    let y = namespaces_bytes(rest) + tail_x;
                    let a = namespace_line_of(want_line).len() as int;
                    lemma_window(buf@, m, y, a, y.len() as int);
                }
            }
            match line {
                None => {
                    proof {
                        m = cur.pos as int;
                        if hyp {
                            let y = namespaces_bytes(rest) + tail_x;
                            assert(y.subrange(namespaces_end().len() as int, y.len() as int) =~= lit("  </siteinfo>\n"@));
                            assert(nss =~= g.namespaces);
                        }
                    }
                    break;
                },
                Some(gnf) => {
                    let ghost nf = gnf@;
                    proof {
                        let old_nss = nss;
                        nss = nss.push(nf);
                        assert(nss.drop_last() =~= old_nss);
                        m = cur.pos as int;
                        if hyp {
                            let y = namespaces_bytes(rest) + tail_x;
                            assert(k < n);
                            lemma_namespaces_concat(seq![rest[0]], rest.subrange(1, rest.len() as int));
                            assert(seq![rest[0]] + rest.subrange(1, rest.len() as int) =~= rest);
                            lemma_namespaces_single(rest[0]);
                            assert(nf == rest[0]);
                            assert(rest.subrange(1, rest.len() as int) =~= g.namespaces.subrange(
                                nss.len() as int,
                                n,
                            ));
                            assert(nss =~= g.namespaces.subrange(0, nss.len() as int));
                            assert(y.subrange(namespace_bytes(nf).len() as int, y.len() as int) =~= namespaces_bytes(g.namespaces.subrange(nss.len() as int, n)) + tail_x);
                        }
                    }
                },
            }
        }
        proof { acc = buf@.subrange(st, m); }
        let ghost mid = m;
        match expect(buf, closed, cur, "  </siteinfo>\n") {
            Err(e) => { return Err(e); },
            Ok(()) => {},
        }
        proof {
            lemma_cat(buf@, st, mid, cur.pos as int);
            let h = HeaderFields {
                lang: lang@,
                sitename: sitename@,
                dbname: dbname@,
                base: base@,
                generator: generator@,
                namespaces: nss,
            };
            assert(header_ok(h));
            assert(header_bytes(h) == buf@.subrange(st, cur.pos as int));
            if hyp {
                assert(h == g);
            }
        }
        Ok(())
    }
}

} // verus!
