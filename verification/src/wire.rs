//! The bytes between a sender and a receiver: each segment is announced by a
//! header, and each header by its length.

use vstd::prelude::*;
use vstd::string::*;
use crate::path::{law_strip_root_takes_first, slashed, strip_root, stripped};
use crate::plan::Segment;

verus! {

/// What a sender says of a segment before it sends the bytes.
pub struct SegHeader {
    pub token: String,
    pub rel: String,
    pub offset: u64,
    pub len: u64,
    pub size: u64,
}

/// A header, with texts as sequences of characters.
pub struct Header {
    pub token: Seq<char>,
    pub rel: Seq<char>,
    pub offset: u64,
    pub len: u64,
    pub size: u64,
}

impl View for SegHeader {
    type V = Header;

    open spec fn view(&self) -> Header {
        Header {
            token: self.token@,
            rel: self.rel@,
            offset: self.offset,
            len: self.len,
            size: self.size,
        }
    }
}

/// The header that announces a segment.
pub open spec fn segment_header(token: Seq<char>, seg: Segment) -> Header {
    Header {
        token,
        rel: stripped(seg.rel@),
        offset: seg.offset,
        len: seg.len,
        size: seg.size,
    }
}

/// The longest header that a receiver takes.
pub const MAX_HEADER: usize = 65536;

/// What the receiver answers to a header that it takes.
pub const ACK: u8 = 1;

/// What the receiver answers to a token that it does not know.
pub const NACK: u8 = 0;

/// The four bytes of a number below 2^32, the highest first.
pub open spec fn be_bytes(n: int) -> Seq<u8> {
    seq![
        (n / 16777216 % 256) as u8,
        (n / 65536 % 256) as u8,
        (n / 256 % 256) as u8,
        (n % 256) as u8,
    ]
}

/// The number that four bytes stand for, the highest first.
pub open spec fn be_value(b: Seq<u8>) -> int {
    b[0] * 16777216 + b[1] * 65536 + b[2] * 256 + b[3]
}

/// A header with its length before it.
pub open spec fn framed(body: Seq<u8>) -> Seq<u8> {
    be_bytes(body.len() as int) + body
}

/// The length of a header that is worth reading.
pub open spec fn accepted_len(b: Seq<u8>) -> Option<usize> {
    if 0 < be_value(b) <= MAX_HEADER {
        Some(be_value(b) as usize)
    } else {
        None
    }
}

/// Four bytes give back the number that they were made of, counted modulo
/// 2^32.
pub proof fn law_be_round_trip(n: int)
    requires
        0 <= n,
    ensures
        be_bytes(n).len() == 4,
        be_value(be_bytes(n)) == n % 4294967296,
{
    let a = n / 16777216 % 256;
    let b = n / 65536 % 256;
    let c = n / 256 % 256;
    let d = n % 256;
    assert(n / 65536 == (n / 256) / 256) by (nonlinear_arith);
    assert(n / 16777216 == (n / 65536) / 256) by (nonlinear_arith);
    assert(n / 4294967296 == (n / 16777216) / 256) by (nonlinear_arith);
    assert(n == (n / 256) * 256 + d);
    assert(n / 256 == (n / 65536) * 256 + c);
    assert(n / 65536 == (n / 16777216) * 256 + b);
    assert(n / 16777216 == (n / 4294967296) * 256 + a);
}

/// The bytes of a length count by 256, the first one most.
pub proof fn law_first_byte_counts_most(a: u8, b: u8, c: u8, d: u8)
    ensures
        be_value(seq![a, b, c, d]) == ((a * 256 + b) * 256 + c) * 256 + d,
{
}

/// A header is worth reading from one byte up to 65536 bytes.
pub proof fn law_readable_lengths(b: Seq<u8>)
    requires
        b.len() == 4,
    ensures
        accepted_len(b) is Some <==> 1 <= be_value(b) <= 65536,
        accepted_len(b) is Some ==> accepted_len(b)->0 == be_value(b),
{
}

/// What the receiver reads of a frame: where the header is not empty and not
/// too long, its length and then the header itself; any other is not read.
pub proof fn law_frame_read_back(body: Seq<u8>)
    requires
        body.len() < 4294967296,
    ensures
        accepted_len(framed(body).take(4)) == (if 0 < body.len() <= MAX_HEADER {
            Some(body.len() as usize)
        } else {
            None
        }),
        framed(body).skip(4) == body,
{
    law_be_round_trip(body.len() as int);
    assert(framed(body).take(4) =~= be_bytes(body.len() as int));
    assert(framed(body).skip(4) =~= body);
}

/// Puts the length before a header.
pub fn frame(body: &Vec<u8>) -> (r: Vec<u8>)
    ensures
        r@ == framed(body@),
{
    let n: u64 = body.len() as u64;
    let mut out: Vec<u8> = Vec::new();
    out.push((n / 16777216 % 256) as u8);
    out.push((n / 65536 % 256) as u8);
    out.push((n / 256 % 256) as u8);
    out.push((n % 256) as u8);
    proof {
        assert(out@ =~= be_bytes(body@.len() as int));
    }
    let mut i: usize = 0;
    proof {
        assert(out@ + body@.take(0) =~= out@);
    }
    while i < body.len()
        invariant
            i <= body.len(),
            out@ == be_bytes(body@.len() as int) + body@.take(i as int),
        decreases body.len() - i,
    {
        out.push(body[i]);
        proof {
            assert(body@.take(i + 1) =~= body@.take(i as int).push(body@[i as int]));
            assert(out@ =~= be_bytes(body@.len() as int) + body@.take(i + 1));
        }
        i = i + 1;
    }
    proof {
        assert(body@.take(body@.len() as int) =~= body@);
    }
    out
}

/// The length that four bytes announce, if a header of that length is worth
/// reading.
pub fn header_len(b: [u8; 4]) -> (r: Option<usize>)
    ensures
        r == accepted_len(b@),
{
    let n: u64 = b[0] as u64 * 16777216 + b[1] as u64 * 65536 + b[2] as u64 * 256 + b[3] as u64;
    proof {
        assert(n == be_value(b@));
    }
    if n == 0 || n > MAX_HEADER as u64 {
        None
    } else {
        Some(n as usize)
    }
}

/// A value of a JSON object.
pub enum JsonField {
    Text(String),
    Number(u64),
}

/// A value of a JSON object, with its text as a sequence of characters.
pub enum JsonValue {
    Text(Seq<char>),
    Number(u64),
}

impl View for JsonField {
    type V = JsonValue;

    open spec fn view(&self) -> JsonValue {
        match self {
            JsonField::Text(s) => JsonValue::Text(s@),
            JsonField::Number(n) => JsonValue::Number(*n),
        }
    }
}

/// The members of a JSON object, in the order in which they are put in.
pub open spec fn members(fields: Seq<(String, JsonField)>) -> Seq<(Seq<char>, JsonValue)> {
    fields.map_values(|f: (String, JsonField)| (f.0@, f.1@))
}

/// The JSON text, in bytes, of the object with the given members.
pub uninterp spec fn json_object(fields: Seq<(Seq<char>, JsonValue)>) -> Seq<u8>;

/// `serde_json::to_vec` on a `serde_json::Value` that is an object with the
/// given members: the bytes depend on the members alone, and there are some,
/// since an object is written between braces.
#[verifier::external_body]
fn json_bytes(fields: &Vec<(String, JsonField)>) -> (r: Vec<u8>)
    ensures
        r@ == json_object(members(fields@)),
        r@.len() >= 2,
{
    let mut map = serde_json::Map::new();
    for (key, value) in fields {
        let value = match value {
            JsonField::Text(s) => serde_json::Value::from(s.as_str()),
            JsonField::Number(n) => serde_json::Value::from(*n),
        };
        map.insert(key.clone(), value);
    }
    serde_json::to_vec(&serde_json::Value::Object(map)).unwrap()
}

/// The members of a header.
pub open spec fn header_members(h: Header) -> Seq<(Seq<char>, JsonValue)> {
    seq![
        ("token"@, JsonValue::Text(h.token)),
        ("rel"@, JsonValue::Text(h.rel)),
        ("offset"@, JsonValue::Number(h.offset)),
        ("len"@, JsonValue::Number(h.len)),
        ("size"@, JsonValue::Number(h.size)),
    ]
}

/// The value of the member of an object with a name: the last one, as a reader
/// keeps it.
pub open spec fn member(fields: Seq<(Seq<char>, JsonValue)>, name: Seq<char>) -> Option<JsonValue>
    decreases fields.len(),
{
    if fields.len() == 0 {
        None
    } else if fields.last().0 == name {
        Some(fields.last().1)
    } else {
        member(fields.drop_last(), name)
    }
}

/// The header that the members of an object stand for, where all of its fields
/// are there.
pub open spec fn decoded(fields: Seq<(Seq<char>, JsonValue)>) -> Option<Header> {
    match (
        member(fields, "token"@),
        member(fields, "rel"@),
        member(fields, "offset"@),
        member(fields, "len"@),
        member(fields, "size"@),
    ) {
        (
            Some(JsonValue::Text(token)),
            Some(JsonValue::Text(rel)),
            Some(JsonValue::Number(offset)),
            Some(JsonValue::Number(len)),
            Some(JsonValue::Number(size)),
        ) => Some(Header { token, rel, offset, len, size }),
        _ => None,
    }
}

proof fn lemma_member_names()
    ensures
        "token"@ != "rel"@,
        "token"@ != "offset"@,
        "token"@ != "len"@,
        "token"@ != "size"@,
        "rel"@ != "offset"@,
        "rel"@ != "len"@,
        "rel"@ != "size"@,
        "offset"@ != "len"@,
        "offset"@ != "size"@,
        "len"@ != "size"@,
{
    reveal_strlit("token");
    reveal_strlit("rel");
    reveal_strlit("offset");
    reveal_strlit("len");
    reveal_strlit("size");
    assert("token"@[0] == 't');
    assert("rel"@[0] == 'r');
    assert("offset"@[0] == 'o');
    assert("len"@[0] == 'l');
    assert("size"@[0] == 's');
}

/// Whether an object has exactly one member with a name, and that has a value.
pub open spec fn has_one(
    fields: Seq<(Seq<char>, JsonValue)>,
    name: Seq<char>,
    value: JsonValue,
) -> bool {
    exists|i: int|
        0 <= i < fields.len() && fields[i] == (name, value) && forall|j: int|
            0 <= j < fields.len() && j != i ==> (#[trigger] fields[j]).0 != name
}

/// Each field of a header is the one member of its object with the field's name,
/// and the object has no other member.
pub proof fn law_member_for_each_field(h: Header)
    ensures
        header_members(h).len() == 5,
        has_one(header_members(h), "token"@, JsonValue::Text(h.token)),
        has_one(header_members(h), "rel"@, JsonValue::Text(h.rel)),
        has_one(header_members(h), "offset"@, JsonValue::Number(h.offset)),
        has_one(header_members(h), "len"@, JsonValue::Number(h.len)),
        has_one(header_members(h), "size"@, JsonValue::Number(h.size)),
{
    lemma_member_names();
    let f = header_members(h);
    assert(f[0] == ("token"@, JsonValue::Text(h.token)));
    assert(f[1] == ("rel"@, JsonValue::Text(h.rel)));
    assert(f[2] == ("offset"@, JsonValue::Number(h.offset)));
    assert(f[3] == ("len"@, JsonValue::Number(h.len)));
    assert(f[4] == ("size"@, JsonValue::Number(h.size)));
}

proof fn lemma_member(
    fields: Seq<(Seq<char>, JsonValue)>,
    name: Seq<char>,
    value: JsonValue,
    i: int,
)
    requires
        0 <= i < fields.len(),
        fields[i] == (name, value),
        forall|j: int| 0 <= j < fields.len() && j != i ==> (#[trigger] fields[j]).0 != name,
    ensures
        member(fields, name) == Some(value),
    decreases fields.len(),
{
    if i < fields.len() - 1 {
        let init = fields.drop_last();
        assert(fields[fields.len() - 1].0 != name);
        assert forall|j: int| 0 <= j < init.len() && j != i implies (#[trigger] init[j]).0 != name by {
            assert(init[j] == fields[j]);
        }
        lemma_member(init, name, value, i);
    }
}

proof fn lemma_has_one(fields: Seq<(Seq<char>, JsonValue)>, name: Seq<char>, value: JsonValue)
    requires
        has_one(fields, name, value),
    ensures
        member(fields, name) == Some(value),
{
    let i = choose|i: int|
        0 <= i < fields.len() && fields[i] == (name, value) && forall|j: int|
            0 <= j < fields.len() && j != i ==> (#[trigger] fields[j]).0 != name;
    lemma_member(fields, name, value, i);
}

/// What a receiver reads out of the members of a header is the header that the
/// sender meant.
pub proof fn law_header_read_back(h: Header)
    ensures
        decoded(header_members(h)) == Some(h),
{
    law_member_for_each_field(h);
    let f = header_members(h);
    lemma_has_one(f, "token"@, JsonValue::Text(h.token));
    lemma_has_one(f, "rel"@, JsonValue::Text(h.rel));
    lemma_has_one(f, "offset"@, JsonValue::Number(h.offset));
    lemma_has_one(f, "len"@, JsonValue::Number(h.len));
    lemma_has_one(f, "size"@, JsonValue::Number(h.size));
}

/// A header says of a segment where it lies, how long it is and how long its file
/// is, and its path is the segment's without what stands up to the first slash of
/// either kind.
pub proof fn law_header_describes_segment(token: Seq<char>, seg: Segment)
    ensures
        segment_header(token, seg).token == token,
        segment_header(token, seg).offset == seg.offset,
        segment_header(token, seg).len == seg.len,
        segment_header(token, seg).size == seg.size,
        forall|i: int|
            #![trigger seg.rel@[i]]
            0 <= i < seg.rel@.len() && (seg.rel@[i] == '/' || seg.rel@[i] == '\\') && (forall|j: int|
                0 <= j < i ==> #[trigger] seg.rel@[j] != '/' && seg.rel@[j] != '\\')
                ==> segment_header(token, seg).rel == slashed(seg.rel@.skip(i + 1)),
{
    assert forall|i: int|
        #![trigger seg.rel@[i]]
        0 <= i < seg.rel@.len() && (seg.rel@[i] == '/' || seg.rel@[i] == '\\') && (forall|j: int|
            0 <= j < i ==> #[trigger] seg.rel@[j] != '/' && seg.rel@[j] != '\\')
            implies segment_header(token, seg).rel == slashed(seg.rel@.skip(i + 1)) by {
        let s = seg.rel@;
        assert(s =~= s.take(i).push(s[i]) + s.skip(i + 1));
        law_strip_root_takes_first(s.take(i), s[i], s.skip(i + 1));
    }
}

/// A member that is put into an object has the name and the value that it was made
/// with, and a header the fields that it was made with.
pub proof fn law_members_as_put_in(
    fields: Seq<(String, JsonField)>,
    i: int,
    text: String,
    n: u64,
    h: SegHeader,
)
    ensures
        members(fields).len() == fields.len(),
        0 <= i < fields.len() ==> members(fields)[i] == (fields[i].0@, fields[i].1@),
        JsonField::Text(text)@ == JsonValue::Text(text@),
        JsonField::Number(n)@ == JsonValue::Number(n),
        h@.token == h.token@ && h@.rel == h.rel@,
        h@.offset == h.offset && h@.len == h.len && h@.size == h.size,
{
}

/// A receiver answers one to a header that it takes and zero to a token that it does
/// not know.
pub proof fn law_answers()
    ensures
        ACK == 1,
        NACK == 0,
{
}

impl SegHeader {
    /// The header of a segment: its path has the sender's root folder taken
    /// off.
    pub fn of_segment(token: &str, seg: &Segment) -> (r: SegHeader)
        ensures
            r.token@ == token@,
            r.rel@ == stripped(seg.rel@),
            r.offset == seg.offset,
            r.len == seg.len,
            r.size == seg.size,
            r@ == segment_header(token@, *seg),
    {
        SegHeader {
            token: token.to_owned(),
            rel: strip_root(seg.rel.as_str()),
            offset: seg.offset,
            len: seg.len,
            size: seg.size,
        }
    }

    /// The fields of the header, by name.
    pub fn fields(&self) -> (r: Vec<(String, JsonField)>)
        ensures
            members(r@) == header_members(self@),
    {
        let mut v: Vec<(String, JsonField)> = Vec::new();
        v.push(("token".to_owned(), JsonField::Text(self.token.clone())));
        v.push(("rel".to_owned(), JsonField::Text(self.rel.clone())));
        v.push(("offset".to_owned(), JsonField::Number(self.offset)));
        v.push(("len".to_owned(), JsonField::Number(self.len)));
        v.push(("size".to_owned(), JsonField::Number(self.size)));
        proof {
            assert(members(v@) =~= header_members(self@));
        }
        v
    }

    /// The header as it goes over the wire: its length, then its JSON text. A
    /// receiver reads it unless it is too long.
    pub fn to_frame(&self) -> (r: Vec<u8>)
        ensures
            r@ == framed(json_object(header_members(self@))),
            r@.len() <= MAX_HEADER + 4 ==> accepted_len(r@.take(4)) == Some((r@.len() - 4) as usize),
    {
        let body = json_bytes(&self.fields());
        proof {
            if body@.len() <= MAX_HEADER {
                law_frame_read_back(body@);
            }
        }
        frame(&body)
    }
}

} // verus!
