//! Packet records carried by the QR codes.
//!
//! A metadata record is `M:<version>:<name>:<type>:<size>:<chunks>:...`, with
//! the optional file checksum in field 13. A data record is
//! `D:<packet_id>:<seed>:<seed_base>:<num_chunks>:<chunk_count>:<body>`, where
//! the body is everything after the sixth colon. A body holding `|`, or no
//! `,`, is systematic: `idx:b64(|idx:b64)*`. Otherwise it is coded:
//! `idx(,idx)*:b64` carries the XOR of the listed chunks.

use vstd::prelude::*;
use vstd::string::StrSliceExecFns;
use crate::codec::{base64_decoded, decode_base64, decode_percent, percent_decoded};
use crate::text::{
    skip_fields_at, nth_field_at,
    ascii_bytes, find_byte, first_index, is_ascii_space, lemma_ascii_byte, lemma_ascii_eq,
    nth_field, parse_decimal, parse_decimal_at, skip_fields, split, split_once,
};

verus! {

broadcast use vstd::string::group_string_axioms;

/// What a metadata record says of its file.
#[derive(Clone, Debug)]
pub struct FileMetadata {
    pub version: String,
    pub file_name: String,
    pub file_type: String,
    pub file_size: usize,
    pub chunks_count: usize,
    pub file_checksum: Option<String>,
}

pub struct MetadataView {
    pub version: Seq<char>,
    pub file_name: Seq<char>,
    pub file_type: Seq<char>,
    pub file_size: usize,
    pub chunks_count: usize,
    pub file_checksum: Option<Seq<char>>,
}

pub open spec fn opt_string_view(o: Option<String>) -> Option<Seq<char>> {
    match o {
        Some(s) => Some(s@),
        None => None,
    }
}

impl View for FileMetadata {
    type V = MetadataView;

    open spec fn view(&self) -> MetadataView {
        MetadataView {
            version: self.version@,
            file_name: self.file_name@,
            file_type: self.file_type@,
            file_size: self.file_size,
            chunks_count: self.chunks_count,
            file_checksum: opt_string_view(self.file_checksum),
        }
    }
}

/// One source chunk carried as it is.
#[derive(Clone, Debug)]
pub struct SystematicChunk {
    pub chunk_index: usize,
    pub chunk_data: Vec<u8>,
}

/// A data record: either systematic chunks, or the XOR of the chunks listed
/// in `source_chunks` (then `xor_data` is present).
#[derive(Clone, Debug)]
pub struct DataPacket {
    pub packet_id: usize,
    pub source_chunks: Vec<usize>,
    pub systematic_data_chunks: Vec<SystematicChunk>,
    pub xor_data: Option<Vec<u8>>,
}

pub struct DataPacketView {
    pub packet_id: usize,
    pub source_chunks: Seq<usize>,
    pub systematic: Seq<(usize, Seq<u8>)>,
    pub xor_data: Option<Seq<u8>>,
}

pub open spec fn chunks_view(v: Seq<SystematicChunk>) -> Seq<(usize, Seq<u8>)> {
    Seq::new(v.len(), |i: int| (v[i].chunk_index, v[i].chunk_data@))
}

pub open spec fn opt_bytes_view(o: Option<Vec<u8>>) -> Option<Seq<u8>> {
    match o {
        Some(v) => Some(v@),
        None => None,
    }
}

impl View for DataPacket {
    type V = DataPacketView;

    open spec fn view(&self) -> DataPacketView {
        DataPacketView {
            packet_id: self.packet_id,
            source_chunks: self.source_chunks@,
            systematic: chunks_view(self.systematic_data_chunks@),
            xor_data: opt_bytes_view(self.xor_data),
        }
    }
}

/// A parsed packet.
pub enum Packet {
    Metadata(FileMetadata),
    Data(DataPacket),
}

pub enum PacketView {
    Metadata(MetadataView),
    Data(DataPacketView),
}

impl View for Packet {
    type V = PacketView;

    open spec fn view(&self) -> PacketView {
        match self {
            Packet::Metadata(m) => PacketView::Metadata(m@),
            Packet::Data(d) => PacketView::Data(d@),
        }
    }
}

/// Why a payload is not a usable packet.
#[derive(Clone, Copy, Debug, PartialEq, Eq, Structural)]
pub enum ParseError {
    NotAscii,
    UnknownType,
    MalformedMetadata,
    MalformedData,
}

// ---------------------------------------------------------------------------
// Specification of the grammar

/// Whitespace removed, as bytes.
pub open spec fn strip_spaces(t: Seq<char>) -> Seq<u8>
    decreases t.len(),
{
    if t.len() == 0 {
        Seq::empty()
    } else if is_ascii_space(t.last()) {
        strip_spaces(t.drop_last())
    } else {
        strip_spaces(t.drop_last()).push(t.last() as u8)
    }
}

/// Base64 text with whitespace removed and `=` added up to a multiple of four.
pub open spec fn clean_base64(t: Seq<char>) -> Seq<u8> {
    let st = strip_spaces(t);
    st + Seq::new(((4 - st.len() % 4) % 4) as nat, |i: int| 61u8)
}

pub enum RecordStep {
    Bad,
    Skip,
    Chunk(usize, Seq<u8>),
}

/// One `idx:b64` record of a systematic body. Without a colon, or without
/// data, or with data that is not base64, it is skipped; an index that is not
/// a number spoils the packet.
pub open spec fn record_step(rec: Seq<char>) -> RecordStep {
    match split_once(rec, ':') {
        (_, None) => RecordStep::Skip,
        (idx, Some(b64)) => match parse_decimal(idx) {
            None => RecordStep::Bad,
            Some(i) => {
                let cleaned = clean_base64(b64);
                if cleaned.len() == 0 {
                    RecordStep::Skip
                } else {
                    match base64_decoded(cleaned) {
                        Some(d) => RecordStep::Chunk(i, d),
                        None => RecordStep::Skip,
                    }
                }
            },
        },
    }
}

/// The chunks of a systematic body's records, in order.
pub open spec fn systematic_records(recs: Seq<Seq<char>>) -> Option<Seq<(usize, Seq<u8>)>>
    decreases recs.len(),
{
    if recs.len() == 0 {
        Some(Seq::empty())
    } else {
        match systematic_records(recs.drop_last()) {
            None => None,
            Some(acc) => match record_step(recs.last()) {
                RecordStep::Bad => None,
                RecordStep::Skip => Some(acc),
                RecordStep::Chunk(i, d) => Some(acc.push((i, d))),
            },
        }
    }
}

/// The distinct indices of a coded body's index list, in order of first
/// appearance; `None` if one is not a number.
pub open spec fn coded_indices(fields: Seq<Seq<char>>) -> Option<Seq<usize>>
    decreases fields.len(),
{
    if fields.len() == 0 {
        Some(Seq::empty())
    } else {
        match coded_indices(fields.drop_last()) {
            None => None,
            Some(acc) => match parse_decimal(fields.last()) {
                None => None,
                Some(v) => Some(
                    if acc.contains(v) {
                        acc
                    } else {
                        acc.push(v)
                    },
                ),
            },
        }
    }
}

pub open spec fn has_char(s: Seq<char>, c: char) -> bool {
    first_index(s, c) < s.len()
}

pub open spec fn body_is_coded(body: Seq<char>) -> bool {
    !has_char(body, '|') && has_char(body, ',')
}

/// The data record `s`, if it is well formed.
pub open spec fn parse_data(s: Seq<char>) -> Option<DataPacketView> {
    match (skip_fields(s, ':', 6), nth_field(s, ':', 1), nth_field(s, ':', 5)) {
        (Some(body), Some(id_text), Some(count_text)) => match (
            parse_decimal(id_text),
            parse_decimal(count_text),
        ) {
            (Some(id), Some(_)) => if body_is_coded(body) {
                let (list, rest) = split_once(body, ':');
                match (rest, coded_indices(split(list, ','))) {
                    (Some(b64), Some(idx)) => match base64_decoded(clean_base64(b64)) {
                        Some(x) => Some(
                            DataPacketView {
                                packet_id: id,
                                source_chunks: idx,
                                systematic: Seq::empty(),
                                xor_data: Some(x),
                            },
                        ),
                        None => None,
                    },
                    _ => None,
                }
            } else {
                match systematic_records(split(body, '|')) {
                    Some(recs) => Some(
                        DataPacketView {
                            packet_id: id,
                            source_chunks: Seq::new(recs.len(), |i: int| recs[i].0),
                            systematic: recs,
                            xor_data: None,
                        },
                    ),
                    None => None,
                }
            },
            _ => None,
        },
        _ => None,
    }
}

/// The metadata record `s`, if it is well formed: fields 1 to 5 present,
/// name and type percent-decoded, size and chunk count numbers, and the
/// checksum taken from field 13 when that is present and not empty.
pub open spec fn parse_metadata(s: Seq<char>) -> Option<MetadataView> {
    match (
        nth_field(s, ':', 1),
        nth_field(s, ':', 2),
        nth_field(s, ':', 3),
        nth_field(s, ':', 4),
        nth_field(s, ':', 5),
    ) {
        (Some(v), Some(n), Some(t), Some(z), Some(c)) => match (
            percent_decoded(n),
            percent_decoded(t),
            parse_decimal(z),
            parse_decimal(c),
        ) {
            (Some(name), Some(ty), Some(size), Some(count)) => Some(
                MetadataView {
                    version: v,
                    file_name: name,
                    file_type: ty,
                    file_size: size,
                    chunks_count: count,
                    file_checksum: match nth_field(s, ':', 13) {
                        Some(k) => if k.len() > 0 {
                            Some(k)
                        } else {
                            None
                        },
                        None => None,
                    },
                },
            ),
            _ => None,
        },
        _ => None,
    }
}

pub open spec fn starts_with_tag(s: Seq<char>, tag: char) -> bool {
    s.len() >= 2 && s[0] == tag && s[1] == ':'
}

/// The packet that payload `s` holds, or why it holds none.
pub open spec fn parse_packet_spec(s: Seq<char>) -> Result<PacketView, ParseError> {
    if !vstd::utf8::is_ascii_chars(s) {
        Err(ParseError::NotAscii)
    } else if starts_with_tag(s, 'M') {
        match parse_metadata(s) {
            Some(m) => Ok(PacketView::Metadata(m)),
            None => Err(ParseError::MalformedMetadata),
        }
    } else if starts_with_tag(s, 'D') {
        match parse_data(s) {
            Some(d) => Ok(PacketView::Data(d)),
            None => Err(ParseError::MalformedData),
        }
    } else {
        Err(ParseError::UnknownType)
    }
}

pub open spec fn packet_result_view(r: Result<Packet, ParseError>) -> Result<PacketView, ParseError> {
    match r {
        Ok(p) => Ok(p@),
        Err(e) => Err(e),
    }
}

// ---------------------------------------------------------------------------
// Parsing

proof fn lemma_space_byte(c: char)
    requires
        '\0' <= c <= '\u{7f}',
    ensures
        is_ascii_space(c) == ((c as u8) == 32u8 || (9u8 <= (c as u8) && (c as u8) <= 13u8)),
{
    lemma_ascii_byte(c);
}

/// `clean_base64` of `s[from..end]`.
fn clean_base64_at(b: &[u8], from: usize, end: usize, Ghost(s): Ghost<Seq<char>>) -> (r: Vec<u8>)
    requires
        from <= end <= b@.len(),
        ascii_bytes(b@, s),
    ensures
        r@ == clean_base64(s.subrange(from as int, end as int)),
{
    let mut out: Vec<u8> = Vec::new();
    let mut i = from;
    while i < end
        invariant
            from <= i <= end <= b@.len(),
            ascii_bytes(b@, s),
            out@ == strip_spaces(s.subrange(from as int, i as int)),
        decreases end - i,
    {
        let byte = b[i];
        proof {
            let p = s.subrange(from as int, i + 1);
            assert(p.drop_last() =~= s.subrange(from as int, i as int));
            assert(p.last() == s[i as int]);
            lemma_space_byte(s[i as int]);
        }
        if !(byte == 32u8 || (9u8 <= byte && byte <= 13u8)) {
            out.push(byte);
        }
        i = i + 1;
    }
    let ghost st = out@;
    while out.len() % 4 != 0
        invariant
            st.len() <= out@.len() <= st.len() + 3,
            out@ == st + Seq::new((out@.len() - st.len()) as nat, |i: int| 61u8),
            out@.len() % 4 != 0 ==> out@.len() - st.len() < (4 - st.len() % 4) % 4,
            out@.len() - st.len() <= (4 - st.len() % 4) % 4,
            (out@.len() - st.len() + st.len() % 4) % 4 == out@.len() % 4,
        decreases 4 - (out@.len() - st.len()),
    {
        out.push(61u8);
        assert(out@ =~= st + Seq::new((out@.len() - st.len()) as nat, |i: int| 61u8));
    }
    assert(out@.len() - st.len() == (4 - st.len() % 4) % 4);
    out
}

proof fn lemma_records_none(x: Seq<Seq<char>>, y: Seq<Seq<char>>)
    requires
        systematic_records(x).is_none(),
    ensures
        systematic_records(x + y).is_none(),
    decreases y.len(),
{
    if y.len() == 0 {
        assert(x + y =~= x);
    } else {
        lemma_records_none(x, y.drop_last());
        assert((x + y).drop_last() =~= x + y.drop_last());
    }
}

proof fn lemma_indices_none(x: Seq<Seq<char>>, y: Seq<Seq<char>>)
    requires
        coded_indices(x).is_none(),
    ensures
        coded_indices(x + y).is_none(),
    decreases y.len(),
{
    if y.len() == 0 {
        assert(x + y =~= x);
    } else {
        lemma_indices_none(x, y.drop_last());
        assert((x + y).drop_last() =~= x + y.drop_last());
    }
}

/// One step of splitting `s[pos..end]` at `c`, found at `i`.
proof fn lemma_split_step(s: Seq<char>, pos: int, i: int, end: int, c: char)
    requires
        0 <= pos <= i <= end <= s.len(),
        first_index(s.subrange(pos, end), c) == i - pos,
    ensures
        i < end ==> split(s.subrange(pos, end), c) == seq![s.subrange(pos, i)] + split(
            s.subrange(i + 1, end),
            c,
        ),
        i == end ==> split(s.subrange(pos, end), c) == seq![s.subrange(pos, i)],
        i < end ==> split_once(s.subrange(pos, end), c) == (
            s.subrange(pos, i),
            Some(s.subrange(i + 1, end)),
        ),
        i == end ==> split_once(s.subrange(pos, end), c) == (s.subrange(pos, i), None::<Seq<char>>),
{
    let t = s.subrange(pos, end);
    assert(t.subrange(0, i - pos) =~= s.subrange(pos, i));
    if i < end {
        assert(t.subrange(i - pos + 1, t.len() as int) =~= s.subrange(i + 1, end));
    } else {
        assert(t =~= s.subrange(pos, i));
    }
}

fn vec_contains(v: &Vec<usize>, x: usize) -> (r: bool)
    ensures
        r == v@.contains(x),
{
    let mut i: usize = 0;
    while i < v.len()
        invariant
            i <= v@.len(),
            forall|j: int| 0 <= j < i ==> v@[j] != x,
        decreases v@.len() - i,
    {
        if v[i] == x {
            return true;
        }
        i = i + 1;
    }
    false
}

/// The records of the systematic body `s[from..end]`.
fn parse_systematic_at(b: &[u8], from: usize, end: usize, Ghost(s): Ghost<Seq<char>>) -> (r:
    Option<Vec<SystematicChunk>>)
    requires
        from <= end <= b@.len(),
        ascii_bytes(b@, s),
    ensures
        match r {
            Some(v) => systematic_records(split(s.subrange(from as int, end as int), '|'))
                == Some(chunks_view(v@)),
            None => systematic_records(split(s.subrange(from as int, end as int), '|')).is_none(),
        },
{
    let ghost all = split(s.subrange(from as int, end as int), '|');
    let ghost mut done: Seq<Seq<char>> = Seq::empty();
    let mut acc: Vec<SystematicChunk> = Vec::new();
    let mut pos = from;
    loop
        invariant
            from <= pos <= end <= b@.len(),
            ascii_bytes(b@, s),
            all == split(s.subrange(from as int, end as int), '|'),
            all == done + split(s.subrange(pos as int, end as int), '|'),
            systematic_records(done) == Some(chunks_view(acc@)),
        decreases end - pos,
    {
        let i = find_byte(b, pos, end, '|', Ghost(s));
        proof {
            lemma_split_step(s, pos as int, i as int, end as int, '|');
        }
        let ghost rec = s.subrange(pos as int, i as int);
        let ghost next = done.push(rec);
        proof {
            assert(next.drop_last() =~= done);
            assert(next.last() == rec);
        }
        let colon = find_byte(b, pos, i, ':', Ghost(s));
        proof {
            lemma_split_step(s, pos as int, colon as int, i as int, ':');
        }
        if colon < i {
            match parse_decimal_at(b, pos, colon, Ghost(s)) {
                None => {
                    proof {
                        if i < end {
                            lemma_records_none(next, split(s.subrange(i + 1, end as int), '|'));
                            assert(all =~= next + split(s.subrange(i + 1, end as int), '|'));
                        } else {
                            assert(all =~= next);
                        }
                    }
                    return None;
                },
                Some(index) => {
                    let cleaned = clean_base64_at(b, colon + 1, i, Ghost(s));
                    if cleaned.len() > 0 {
                        match decode_base64(cleaned.as_slice()) {
                            Some(data) => {
                                let ghost before = acc@;
                                acc.push(SystematicChunk { chunk_index: index, chunk_data: data });
                                proof {
                                    assert(chunks_view(acc@) =~= chunks_view(before).push(
                                        (index, data@),
                                    ));
                                }
                            },
                            None => {},
                        }
                    }
                },
            }
        }
        proof {
            done = next;
        }
        if i == end {
            assert(all =~= done);
            return Some(acc);
        }
        proof {
            assert(all =~= done + split(s.subrange(i + 1, end as int), '|'));
        }
        pos = i + 1;
    }
}

/// The coded body `s[from..end]`: its distinct indices and its XOR data.
fn parse_coded_at(b: &[u8], from: usize, end: usize, Ghost(s): Ghost<Seq<char>>) -> (r: Option<
    (Vec<usize>, Vec<u8>),
>)
    requires
        from <= end <= b@.len(),
        ascii_bytes(b@, s),
    ensures
        ({
            let (list, rest) = split_once(s.subrange(from as int, end as int), ':');
            let spec_r = match (rest, coded_indices(split(list, ','))) {
                (Some(b64), Some(idx)) => match base64_decoded(clean_base64(b64)) {
                    Some(x) => Some((idx, x)),
                    None => None,
                },
                _ => None,
            };
            match r {
                Some((idx, x)) => spec_r == Some((idx@, x@)),
                None => spec_r.is_none(),
            }
        }),
{
    let colon = find_byte(b, from, end, ':', Ghost(s));
    proof {
        lemma_split_step(s, from as int, colon as int, end as int, ':');
    }
    if colon == end {
        return None;
    }
    let ghost all = split(s.subrange(from as int, colon as int), ',');
    let ghost mut done: Seq<Seq<char>> = Seq::empty();
    let mut acc: Vec<usize> = Vec::new();
    let mut pos = from;
    loop
        invariant_except_break
            all == done + split(s.subrange(pos as int, colon as int), ','),
        invariant
            from <= pos <= colon < end <= b@.len(),
            ascii_bytes(b@, s),
            all == split(s.subrange(from as int, colon as int), ','),
            coded_indices(done) == Some(acc@),
            split_once(s.subrange(from as int, end as int), ':') == (
                s.subrange(from as int, colon as int),
                Some(s.subrange(colon + 1, end as int)),
            ),
        ensures
            all == done,
            coded_indices(done) == Some(acc@),
        decreases colon - pos,
    {
        let i = find_byte(b, pos, colon, ',', Ghost(s));
        proof {
            lemma_split_step(s, pos as int, i as int, colon as int, ',');
        }
        let ghost field = s.subrange(pos as int, i as int);
        let ghost next = done.push(field);
        proof {
            assert(next.drop_last() =~= done);
            assert(next.last() == field);
        }
        match parse_decimal_at(b, pos, i, Ghost(s)) {
            None => {
                proof {
                    if i < colon {
                        lemma_indices_none(next, split(s.subrange(i + 1, colon as int), ','));
                        assert(all =~= next + split(s.subrange(i + 1, colon as int), ','));
                    } else {
                        assert(all =~= next);
                    }
                }
                return None;
            },
            Some(v) => {
                if !vec_contains(&acc, v) {
                    acc.push(v);
                }
            },
        }
        proof {
            done = next;
        }
        if i == colon {
            assert(all =~= done);
            break;
        }
        proof {
            assert(all =~= done + split(s.subrange(i + 1, colon as int), ','));
        }
        pos = i + 1;
    }
    let cleaned = clean_base64_at(b, colon + 1, end, Ghost(s));
    match decode_base64(cleaned.as_slice()) {
        Some(x) => Some((acc, x)),
        None => None,
    }
}

fn chunk_indices(recs: &Vec<SystematicChunk>) -> (r: Vec<usize>)
    ensures
        r@ == Seq::new(recs@.len(), |i: int| chunks_view(recs@)[i].0),
{
    let mut out: Vec<usize> = Vec::new();
    let mut i: usize = 0;
    while i < recs.len()
        invariant
            i <= recs@.len(),
            out@ == Seq::new(i as nat, |k: int| chunks_view(recs@)[k].0),
        decreases recs@.len() - i,
    {
        out.push(recs[i].chunk_index);
        i = i + 1;
        assert(out@ =~= Seq::new(i as nat, |k: int| chunks_view(recs@)[k].0));
    }
    out
}

/// The data record held in the ASCII text `text`, whose bytes are `b`.
fn parse_data_at(text: &str, b: &[u8]) -> (r: Option<DataPacket>)
    requires
        ascii_bytes(b@, text@),
    ensures
        match r {
            Some(d) => parse_data(text@) == Some(d@),
            None => parse_data(text@).is_none(),
        },
{
    let ghost s = text@;
    let n = b.len();
    assert(s.subrange(0, n as int) =~= s);
    let body = match skip_fields_at(b, 0, n, ':', 6, Ghost(s)) {
        Some(p) => p,
        None => return None,
    };
    let packet_id = match nth_field_at(b, 0, n, ':', 1, Ghost(s)) {
        Some((p, e)) => match parse_decimal_at(b, p, e, Ghost(s)) {
            Some(v) => v,
            None => return None,
        },
        None => return None,
    };
    match nth_field_at(b, 0, n, ':', 5, Ghost(s)) {
        Some((p, e)) => match parse_decimal_at(b, p, e, Ghost(s)) {
            Some(_) => {},
            None => return None,
        },
        None => return None,
    }
    let ghost body_s = s.subrange(body as int, n as int);
    let bar = find_byte(b, body, n, '|', Ghost(s));
    let comma = find_byte(b, body, n, ',', Ghost(s));
    assert(has_char(body_s, '|') == (bar < n));
    assert(has_char(body_s, ',') == (comma < n));
    if bar == n && comma < n {
        match parse_coded_at(b, body, n, Ghost(s)) {
            Some((indices, xor)) => {
                let d = DataPacket {
                    packet_id,
                    source_chunks: indices,
                    systematic_data_chunks: Vec::new(),
                    xor_data: Some(xor),
                };
                assert(d@.systematic =~= Seq::empty());
                Some(d)
            },
            None => None,
        }
    } else {
        match parse_systematic_at(b, body, n, Ghost(s)) {
            Some(recs) => {
                let indices = chunk_indices(&recs);
                let ghost rv = chunks_view(recs@);
                assert(indices@ =~= Seq::new(rv.len(), |i: int| rv[i].0));
                Some(
                    DataPacket {
                        packet_id,
                        source_chunks: indices,
                        systematic_data_chunks: recs,
                        xor_data: None,
                    },
                )
            },
            None => None,
        }
    }
}

/// The metadata record held in the ASCII text `text`, whose bytes are `b`.
fn parse_metadata_at(text: &str, b: &[u8]) -> (r: Option<FileMetadata>)
    requires
        ascii_bytes(b@, text@),
        text.is_ascii(),
    ensures
        match r {
            Some(m) => parse_metadata(text@) == Some(m@),
            None => parse_metadata(text@).is_none(),
        },
{
    let ghost s = text@;
    let n = b.len();
    assert(s.subrange(0, n as int) =~= s);
    let (vp, ve) = match nth_field_at(b, 0, n, ':', 1, Ghost(s)) {
        Some(f) => f,
        None => return None,
    };
    let (np, ne) = match nth_field_at(b, 0, n, ':', 2, Ghost(s)) {
        Some(f) => f,
        None => return None,
    };
    let (tp, te) = match nth_field_at(b, 0, n, ':', 3, Ghost(s)) {
        Some(f) => f,
        None => return None,
    };
    let (zp, ze) = match nth_field_at(b, 0, n, ':', 4, Ghost(s)) {
        Some(f) => f,
        None => return None,
    };
    let (cp, ce) = match nth_field_at(b, 0, n, ':', 5, Ghost(s)) {
        Some(f) => f,
        None => return None,
    };
    let file_name = match decode_percent(text.substring_ascii(np, ne)) {
        Some(v) => v,
        None => return None,
    };
    let file_type = match decode_percent(text.substring_ascii(tp, te)) {
        Some(v) => v,
        None => return None,
    };
    let file_size = match parse_decimal_at(b, zp, ze, Ghost(s)) {
        Some(v) => v,
        None => return None,
    };
    let chunks_count = match parse_decimal_at(b, cp, ce, Ghost(s)) {
        Some(v) => v,
        None => return None,
    };
    let file_checksum = match nth_field_at(b, 0, n, ':', 13, Ghost(s)) {
        Some((kp, ke)) => if kp < ke {
            Some(String::from_str(text.substring_ascii(kp, ke)))
        } else {
            None
        },
        None => None,
    };
    let version = String::from_str(text.substring_ascii(vp, ve));
    let m = FileMetadata { version, file_name, file_type, file_size, chunks_count, file_checksum };
    Some(m)
}

/// Reads one QR payload as a packet.
pub fn parse_packet(payload: &str) -> (r: Result<Packet, ParseError>)
    ensures
        packet_result_view(r) == parse_packet_spec(payload@),
{
    if !payload.is_ascii() {
        return Err(ParseError::NotAscii);
    }
    let b = payload.as_bytes();
    let ghost s = payload@;
    proof {
        assert(b@ =~= Seq::new(s.len(), |i: int| s[i] as u8));
    }
    let n = b.len();
    if n >= 2 {
        proof {
            lemma_ascii_eq(s[0], 'M');
            lemma_ascii_eq(s[0], 'D');
            lemma_ascii_eq(s[1], ':');
        }
    }
    if n >= 2 && b[0] == 77u8 && b[1] == 58u8 {
        match parse_metadata_at(payload, b) {
            Some(m) => Ok(Packet::Metadata(m)),
            None => Err(ParseError::MalformedMetadata),
        }
    } else if n >= 2 && b[0] == 68u8 && b[1] == 58u8 {
        match parse_data_at(payload, b) {
            Some(d) => Ok(Packet::Data(d)),
            None => Err(ParseError::MalformedData),
        }
    } else {
        Err(ParseError::UnknownType)
    }
}

proof fn lemma_coded_indices_distinct(fields: Seq<Seq<char>>)
    ensures
        match coded_indices(fields) {
            Some(acc) => acc.no_duplicates(),
            None => true,
        },
    decreases fields.len(),
{
    if fields.len() > 0 {
        lemma_coded_indices_distinct(fields.drop_last());
        match coded_indices(fields.drop_last()) {
            Some(acc) => match parse_decimal(fields.last()) {
                Some(v) => if !acc.contains(v) {
                    let n = acc.push(v);
                    assert forall|a: int, b: int| 0 <= a < n.len() && 0 <= b < n.len() && a != b implies n[a] != n[b] by {
                        if a == acc.len() as int {
                            assert(n[b] == acc[b]);
                        } else if b == acc.len() as int {
                            assert(n[a] == acc[a]);
                        } else {
                            assert(n[a] == acc[a] && n[b] == acc[b]);
                        }
                    }
                },
                None => {},
            },
            None => {},
        }
    }
}

/// A coded data record never lists a chunk twice.
pub proof fn lemma_coded_sources_distinct(s: Seq<char>)
    ensures
        match parse_data(s) {
            Some(p) => p.xor_data.is_some() ==> p.source_chunks.no_duplicates(),
            None => true,
        },
{
    match skip_fields(s, ':', 6) {
        Some(body) => {
            lemma_coded_indices_distinct(split(split_once(body, ':').0, ','));
        },
        None => {},
    }
}

} // verus!
