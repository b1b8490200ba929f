//! The whole-file codec: header, section framing, and the [`Msbt`] document
//! methods [`Msbt::from_binary`] and [`Msbt::to_binary`].
//!
//! A file is a 32-byte header followed by its sections, each 16 bytes of
//! section header (four-byte magic, 32-bit payload length, eight reserved
//! bytes), the payload, and zero padding to the next 16-byte boundary.
//! Section count and total file size are re-derived on write from what is
//! actually present, never copied from the input.

use vstd::prelude::*;

use crate::bytes::append_bytes;
use crate::bytes::append_zeros;
use crate::bytes::bytes_eq;
use crate::bytes::vec_subrange;
use crate::bytes::zero_bytes;
use crate::endian::read_u16;
use crate::endian::read_u32;
use crate::endian::u16_at;
use crate::endian::u16_bytes;
use crate::endian::write_u16;
use crate::endian::write_u32;
use crate::endian::u32_bytes;
use crate::endian::ByteOrder;
use crate::endian::Encoding;
use crate::error::MsbtError;
use crate::hash::bucket_count;
use crate::hash::spec_bucket_count;
use crate::model::header_magic;
use crate::model::magic_atr1;
use crate::model::magic_lbl1;
use crate::model::magic_nli1;
use crate::model::magic_txt2;
use crate::model::ExtraSection;
use crate::model::Msbt;
use crate::model::MsbtEntry;
use crate::model::MsbtRun;
use crate::model::SpecDoc;
use crate::model::SpecRun;
use crate::runs::decode_runs;
use crate::runs::run_sizes_ok;
use crate::tables::count_styles;
use crate::tables::encode_atr1;
use crate::tables::encode_lbl1;
use crate::tables::encode_nli1;
use crate::tables::encode_txt2;
use crate::tables::entries_view;
use crate::tables::atr1_payload;
use crate::tables::lbl1_payload;
use crate::tables::len_sum;
use crate::tables::nli1_payload;
use crate::tables::spec_attrs;
use crate::tables::spec_blobs;
use crate::tables::spec_labels;
use crate::tables::style_pairs;
use crate::tables::txt2_payload;

verus! {

/// The two bytes of the byte-order mark: the fixed value `0xFEFF`, laid out
/// in the byte order it selects.
pub open spec fn bom_bytes(bo: ByteOrder) -> Seq<u8> {
    match bo {
        ByteOrder::Little => seq![0xFFu8, 0xFEu8],
        ByteOrder::Big => seq![0xFEu8, 0xFFu8],
    }
}

/// The header's encoding flag.
pub open spec fn enc_flag(enc: Encoding) -> u8 {
    match enc {
        Encoding::Utf16 => 0,
        Encoding::Utf8 => 1,
    }
}

/// The zero padding that brings a payload of `n` bytes to the next 16-byte
/// boundary.
pub open spec fn pad16(n: int) -> int {
    (16 - (n % 16)) % 16
}

/// One framed section: magic, 32-bit payload length, eight reserved bytes,
/// payload, zero padding to a 16-byte boundary.
pub open spec fn sec_bytes(bo: ByteOrder, magic: Seq<u8>, payload: Seq<u8>) -> Seq<u8> {
    magic + u32_bytes(bo, ((payload.len() as int) % 0x100000000) as u32) + zero_bytes(8) + payload
        + zero_bytes(pad16(payload.len() as int))
}

/// The unrecognized sections, re-framed in order.
pub open spec fn extras_secs(bo: ByteOrder, xs: Seq<(Seq<u8>, Seq<u8>)>) -> Seq<u8>
    decreases xs.len(),
{
    if xs.len() == 0 {
        Seq::empty()
    } else {
        extras_secs(bo, xs.drop_last()) + sec_bytes(bo, xs.last().0, xs.last().1)
    }
}

/// The 32-byte file header.
pub open spec fn header_bytes(
    bo: ByteOrder,
    enc: Encoding,
    version: u16,
    nsec: u16,
    total: u32,
) -> Seq<u8> {
    header_magic() + bom_bytes(bo) + seq![0u8, enc_flag(enc)] + u16_bytes(bo, version) + u16_bytes(
        bo,
        nsec,
    ) + seq![0u8, 0u8] + u32_bytes(bo, total) + zero_bytes(10)
}

/// Every section of a document, in canonical order: `LBL1`, `ATR1`, `NLI1`
/// when any entry carries a style, `TXT2`, then the opaque extras.
#[verifier::opaque]
pub open spec fn body_bytes(d: SpecDoc) -> Seq<u8> {
    let bo = d.byte_order;
    let width = if d.entries.len() == 0 {
        0int
    } else {
        d.entries[0].attributes.len() as int
    };
    let sp = style_pairs(d.entries);
    sec_bytes(
        bo,
        magic_lbl1(),
        lbl1_payload(bo, spec_labels(d.entries), spec_bucket_count(d.entries.len() as int)),
    ) + sec_bytes(bo, magic_atr1(), atr1_payload(bo, (width % 0x100000000) as u32, spec_attrs(d.entries)))
        + (if sp.len() > 0 {
        sec_bytes(bo, magic_nli1(), nli1_payload(bo, sp))
    } else {
        Seq::empty()
    }) + sec_bytes(bo, magic_txt2(), txt2_payload(bo, spec_blobs(bo, d.encoding, d.entries)))
        + extras_secs(bo, d.extra_sections)
}

/// How many sections a document encodes to.
pub open spec fn section_count(d: SpecDoc) -> int {
    3 + (if style_pairs(d.entries).len() > 0 {
        1int
    } else {
        0int
    }) + d.extra_sections.len()
}

/// The canonical bytes of a whole document.
pub open spec fn doc_bytes(d: SpecDoc) -> Seq<u8> {
    header_bytes(
        d.byte_order,
        d.encoding,
        d.version,
        ((section_count(d) % 0x10000) as u16),
        (((32 + body_bytes(d).len()) as int % 0x100000000) as u32),
    ) + body_bytes(d)
}

/// The same document with its byte order replaced.
pub open spec fn with_order(d: SpecDoc, bo: ByteOrder) -> SpecDoc {
    SpecDoc { byte_order: bo, ..d }
}

/// The size limits the format's length fields force on an encodable
/// document.
#[verifier::opaque]
pub open spec fn doc_sizes_ok(d: SpecDoc) -> bool {
    let n = d.entries.len() as int;
    &&& n < 0x100000000
    &&& forall|i: int| 0 <= i < n ==> (#[trigger] d.entries[i]).label.len() < 0x10000
    &&& forall|i: int| 0 <= i < n ==> (#[trigger] d.entries[i]).attributes.len() < 0x100000000
    &&& forall|i: int, k: int|
        0 <= i < n && 0 <= k < d.entries[i].contents.len() ==> run_sizes_ok(
            #[trigger] d.entries[i].contents[k],
        )
    &&& d.extra_sections.len() < 0xFFF0
    &&& forall|i: int|
        0 <= i < d.extra_sections.len() ==> (#[trigger] d.extra_sections[i]).0.len() == 4
            && d.extra_sections[i].1.len() < 0x100000000
    &&& 4 + 4 * n + len_sum(spec_blobs(d.byte_order, d.encoding, d.entries), n) < 0x100000000
    &&& lbl1_payload(d.byte_order, spec_labels(d.entries), spec_bucket_count(n)).len()
        < 0x100000000
    &&& atr1_payload(
        d.byte_order,
        ((if n == 0 {
            0int
        } else {
            d.entries[0].attributes.len() as int
        }) % 0x100000000) as u32,
        spec_attrs(d.entries),
    ).len() < 0x100000000
    &&& nli1_payload(d.byte_order, style_pairs(d.entries)).len() < 0x100000000
    &&& txt2_payload(d.byte_order, spec_blobs(d.byte_order, d.encoding, d.entries)).len()
        < 0x100000000
    &&& 32 + body_bytes(d).len() < 0x100000000
}

/// Builds a four-byte magic vector.
fn magic_vec(a: u8, b: u8, c: u8, d: u8) -> (r: Vec<u8>)
    ensures
        r@ == seq![a, b, c, d],
{
    let mut v: Vec<u8> = Vec::new();
    v.push(a);
    v.push(b);
    v.push(c);
    v.push(d);
    proof {
        assert(v@ =~= seq![a, b, c, d]);
    }
    v
}

/// Appends one framed section.
fn write_section(out: &mut Vec<u8>, bo: ByteOrder, magic: &Vec<u8>, payload: &Vec<u8>)
    requires
        magic@.len() == 4,
        payload@.len() < 0x100000000,
    ensures
        final(out)@ == old(out)@ + sec_bytes(bo, magic@, payload@),
{
    append_bytes(out, magic);
    write_u32(out, bo, payload.len() as u32);
    append_zeros(out, 8);
    append_bytes(out, payload);
    let rem = payload.len() % 16;
    let pad = (16 - rem) % 16;
    append_zeros(out, pad);
    proof {
        assert(out@ =~= old(out)@ + sec_bytes(bo, magic@, payload@));
    }
}

/// Appends the 32-byte header.
fn write_header(out: &mut Vec<u8>, bo: ByteOrder, enc: Encoding, version: u16, nsec: u16, total: u32)
    ensures
        final(out)@ == old(out)@ + header_bytes(bo, enc, version, nsec, total),
{
    out.push(0x4D);
    out.push(0x73);
    out.push(0x67);
    out.push(0x53);
    out.push(0x74);
    out.push(0x64);
    out.push(0x42);
    out.push(0x6E);
    match bo {
        ByteOrder::Little => {
            out.push(0xFF);
            out.push(0xFE);
        }
        ByteOrder::Big => {
            out.push(0xFE);
            out.push(0xFF);
        }
    }
    out.push(0);
    match enc {
        Encoding::Utf16 => out.push(0),
        Encoding::Utf8 => out.push(1),
    }
    write_u16(out, bo, version);
    write_u16(out, bo, nsec);
    out.push(0);
    out.push(0);
    write_u32(out, bo, total);
    append_zeros(out, 10);
    proof {
        assert(out@ =~= old(out)@ + header_bytes(bo, enc, version, nsec, total));
    }
}

/// Whether no two entries share a label.
fn labels_all_unique(entries: &Vec<MsbtEntry>) -> (r: bool)
    ensures
        r <==> (forall|a: int, b: int|
            0 <= a < b < entries@.len() ==> (#[trigger] entries@[a]).label@ != (
            #[trigger] entries@[b]).label@),
{
    let n = entries.len();
    let mut i: usize = 0;
    while i < n
        invariant
            0 <= i <= n,
            n == entries@.len(),
            forall|a: int, b: int|
                0 <= a < b < n && a < i ==> (#[trigger] entries@[a]).label@ != (
                #[trigger] entries@[b]).label@,
        decreases n - i,
    {
        let mut j: usize = i + 1;
        while j < n
            invariant
                0 <= i < j <= n,
                n == entries@.len(),
                forall|b: int|
                    i < b < j ==> (#[trigger] entries@[b]).label@ != entries@[i as int].label@,
            decreases n - j,
        {
            if bytes_eq(&entries[i].label, &entries[j].label) {
                return false;
            }
            j = j + 1;
        }
        i = i + 1;
    }
    true
}

/// Whether every entry's attribute blob has the width of the first one.
fn attrs_all_uniform(entries: &Vec<MsbtEntry>) -> (r: bool)
    ensures
        r <==> (forall|a: int|
            0 <= a < entries@.len() ==> (#[trigger] entries@[a]).attributes@.len()
                == entries@[0].attributes@.len()),
{
    let n = entries.len();
    let mut i: usize = 0;
    while i < n
        invariant
            0 <= i <= n,
            n == entries@.len(),
            forall|a: int|
                0 <= a < i ==> (#[trigger] entries@[a]).attributes@.len()
                    == entries@[0].attributes@.len(),
        decreases n - i,
    {
        if entries[i].attributes.len() != entries[0].attributes.len() {
            return false;
        }
        i = i + 1;
    }
    true
}

/// Appends the framed extra sections in order.
fn write_extras(out: &mut Vec<u8>, bo: ByteOrder, xs: &Vec<ExtraSection>)
    requires
        forall|j: int|
            0 <= j < xs@.len() ==> (#[trigger] xs@[j]).magic@.len() == 4 && xs@[j].payload@.len()
                < 0x100000000,
    ensures
        final(out)@ == old(out)@ + extras_secs(
            bo,
            xs@.map_values(|x: ExtraSection| (x.magic@, x.payload@)),
        ),
{
    let vs = Ghost(xs@.map_values(|x: ExtraSection| (x.magic@, x.payload@)));
    let mut x: usize = 0;
    while x < xs.len()
        invariant
            0 <= x <= xs@.len(),
            vs@ == xs@.map_values(|x: ExtraSection| (x.magic@, x.payload@)),
            vs@.len() == xs@.len(),
            forall|j: int|
                0 <= j < xs@.len() ==> (#[trigger] xs@[j]).magic@.len() == 4
                    && xs@[j].payload@.len() < 0x100000000,
            out@ == old(out)@ + extras_secs(bo, vs@.take(x as int)),
        decreases xs@.len() - x,
    {
        proof {
            assert(vs@[x as int] == (xs@[x as int].magic@, xs@[x as int].payload@));
        }
        write_section(out, bo, &xs[x].magic, &xs[x].payload);
        proof {
            assert(vs@.take(x + 1).drop_last() =~= vs@.take(x as int));
            assert(vs@.take(x + 1).last() == vs@[x as int]);
            assert(out@ =~= old(out)@ + extras_secs(bo, vs@.take(x + 1)));
        }
        x = x + 1;
    }
    proof {
        assert(vs@.take(vs@.len() as int) =~= vs@);
    }
}

/// Encodes and frames every section of a document, in canonical order.
#[verifier::rlimit(100)]
#[verifier::spinoff_prover]
fn encode_body(
    bo: ByteOrder,
    enc: Encoding,
    entries: &Vec<MsbtEntry>,
    extras: &Vec<ExtraSection>,
    width: u32,
    styles_n: usize,
    d: Ghost<SpecDoc>,
) -> (r: Vec<u8>)
    requires
        d@.byte_order == bo,
        d@.encoding == enc,
        d@.entries == entries_view(entries@),
        d@.extra_sections == extras@.map_values(|x: ExtraSection| (x.magic@, x.payload@)),
        doc_sizes_ok(d@),
        width as int == (if entries@.len() == 0 {
            0int
        } else {
            entries@[0].attributes@.len() as int
        }),
        styles_n == style_pairs(d@.entries).len(),
    ensures
        r@ == body_bytes(d@),
{
    let n = entries.len();
    proof {
        reveal(doc_sizes_ok);
        assert(entries_view(entries@).len() == entries@.len());
        assert forall|i: int| 0 <= i < entries@.len() implies (
        #[trigger] entries@[i]).label@.len() < 0x10000 by {
            assert(d@.entries[i].label == entries@[i].label@);
        }
        assert forall|i: int, k: int|
            0 <= i < entries@.len() && 0 <= k < entries@[i].contents@.len() implies run_sizes_ok(
            #[trigger] entries_view(entries@)[i].contents[k],
        ) by {
            assert(d@.entries[i].contents[k] == entries_view(entries@)[i].contents[k]);
        }
        assert(spec_blobs(bo, enc, entries_view(entries@)) == spec_blobs(bo, enc, d@.entries));
    }
    let bc = bucket_count(n);
    let mut lbl_p: Vec<u8> = Vec::new();
    encode_lbl1(&mut lbl_p, bo, entries, bc);
    let mut atr_p: Vec<u8> = Vec::new();
    encode_atr1(&mut atr_p, bo, width, entries);
    let mut nli_p: Vec<u8> = Vec::new();
    if styles_n > 0 {
        encode_nli1(&mut nli_p, bo, entries);
    }
    let mut txt_p: Vec<u8> = Vec::new();
    encode_txt2(&mut txt_p, bo, enc, entries);
    proof {
        reveal(doc_sizes_ok);
        assert(lbl_p@.len() < 0x100000000);
        assert(atr_p@.len() < 0x100000000);
        assert(nli_p@.len() < 0x100000000);
        assert(txt_p@.len() < 0x100000000);
    }
    let mut body: Vec<u8> = Vec::new();
    let m_lbl = magic_vec(0x4C, 0x42, 0x4C, 0x31);
    write_section(&mut body, bo, &m_lbl, &lbl_p);
    let m_atr = magic_vec(0x41, 0x54, 0x52, 0x31);
    write_section(&mut body, bo, &m_atr, &atr_p);
    if styles_n > 0 {
        let m_nli = magic_vec(0x4E, 0x4C, 0x49, 0x31);
        write_section(&mut body, bo, &m_nli, &nli_p);
    }
    let m_txt = magic_vec(0x54, 0x58, 0x54, 0x32);
    write_section(&mut body, bo, &m_txt, &txt_p);
    proof {
        assert forall|j: int| 0 <= j < extras@.len() implies (#[trigger] extras@[j]).magic@.len()
            == 4 && extras@[j].payload@.len() < 0x100000000 by {
            assert(d@.extra_sections[j] == (extras@[j].magic@, extras@[j].payload@));
        }
    }
    write_extras(&mut body, bo, extras);
    proof {
        assert(body@ == body_bytes(d@)) by {
            reveal(body_bytes);
        }
    }
    body
}


/// Copies a vector of code units.
fn copy_units(v: &Vec<u16>) -> (r: Vec<u16>)
    ensures
        r@ == v@,
{
    let mut out: Vec<u16> = Vec::new();
    let mut i: usize = 0;
    while i < v.len()
        invariant
            0 <= i <= v@.len(),
            out@ == v@.take(i as int),
        decreases v@.len() - i,
    {
        out.push(v[i]);
        proof {
            assert(v@.take(i + 1) =~= v@.take(i as int) + seq![v@[i as int]]);
        }
        i = i + 1;
    }
    proof {
        assert(v@.take(v@.len() as int) =~= v@);
    }
    out
}

/// Copies a list of runs, preserving its model.
fn copy_runs(v: &Vec<MsbtRun>) -> (r: Vec<MsbtRun>)
    ensures
        crate::runs::runs_view(r@) == crate::runs::runs_view(v@),
{
    let mut out: Vec<MsbtRun> = Vec::new();
    let mut i: usize = 0;
    while i < v.len()
        invariant
            0 <= i <= v@.len(),
            out@.len() == i,
            forall|j: int| 0 <= j < i ==> (#[trigger] out@[j])@ == v@[j]@,
        decreases v@.len() - i,
    {
        match &v[i] {
            MsbtRun::Text(units) => {
                out.push(MsbtRun::Text(copy_units(units)));
            }
            MsbtRun::ControlTag { group, kind, parameters } => {
                out.push(
                    MsbtRun::ControlTag {
                        group: *group,
                        kind: *kind,
                        parameters: vec_subrange(parameters, 0, parameters.len()),
                    },
                );
                proof {
                    assert(parameters@.subrange(0, parameters@.len() as int) =~= parameters@);
                }
            }
        }
        i = i + 1;
    }
    proof {
        assert(crate::runs::runs_view(out@) =~= crate::runs::runs_view(v@));
    }
    out
}

/// The models of decoded label-table pairs.
pub open spec fn lblpairs_view(ps: Seq<(Vec<u8>, u32)>) -> Seq<(Seq<u8>, u32)> {
    ps.map_values(|p: (Vec<u8>, u32)| (p.0@, p.1))
}

/// The models of decoded attribute blobs.
pub open spec fn blobs_view(bs: Seq<Vec<u8>>) -> Seq<Seq<u8>> {
    bs.map_values(|b: Vec<u8>| b@)
}

/// The models of decoded per-entry contents.
pub open spec fn texts_view(ts: Seq<Vec<MsbtRun>>) -> Seq<Seq<SpecRun>> {
    ts.map_values(|t: Vec<MsbtRun>| crate::runs::runs_view(t@))
}

/// The style id the style table assigns to entry `idx`: the first matching
/// pair, if any.
pub open spec fn spec_find_style(nli: Seq<(u32, u32)>, idx: u32) -> Option<u32>
    decreases nli.len(),
{
    if nli.len() == 0 {
        None
    } else if nli[0].0 == idx {
        Some(nli[0].1)
    } else {
        spec_find_style(nli.drop_first(), idx)
    }
}

/// Reads `cnt` fixed-width attribute blobs off the front of `b`.
pub open spec fn parse_blobs(b: Seq<u8>, w: int, cnt: int) -> Option<Seq<Seq<u8>>>
    decreases cnt,
{
    if cnt <= 0 {
        Some(Seq::empty())
    } else if b.len() < w {
        None
    } else {
        match parse_blobs(b.skip(w), w, cnt - 1) {
            None => None,
            Some(bs) => Some(seq![b.take(w)] + bs),
        }
    }
}

/// Parses the attribute table payload: width, count, then the blobs.
pub open spec fn parse_atr1_table(bo: ByteOrder, b: Seq<u8>) -> Option<Seq<Seq<u8>>> {
    if b.len() < 8 {
        None
    } else {
        parse_blobs(b.skip(8), crate::endian::u32_at(bo, b, 0) as int, crate::endian::u32_at(bo, b, 4) as int)
    }
}


/// Peeling the first blob off a blob concatenation.
proof fn lemma_concat_bytes_cons(ss: Seq<Seq<u8>>)
    requires
        ss.len() > 0,
    ensures
        crate::tables::concat_bytes(ss) == ss[0] + crate::tables::concat_bytes(ss.drop_first()),
    decreases ss.len(),
{
    if ss.len() == 1 {
        assert(ss.drop_last() =~= Seq::<Seq<u8>>::empty());
        assert(ss.drop_first() =~= Seq::<Seq<u8>>::empty());
        assert(ss.last() == ss[0]);
        assert(Seq::<u8>::empty() + ss[0] =~= ss[0] + Seq::<u8>::empty());
    } else {
        let init = ss.drop_last();
        lemma_concat_bytes_cons(init);
        assert(init[0] == ss[0]);
        assert(ss.drop_first().drop_last() =~= init.drop_first());
        assert(ss.drop_first().last() == ss.last());
        assert(crate::tables::concat_bytes(ss.drop_first()) == crate::tables::concat_bytes(
            init.drop_first(),
        ) + ss.last());
        assert((ss[0] + crate::tables::concat_bytes(init.drop_first())) + ss.last() =~= ss[0] + (
        crate::tables::concat_bytes(init.drop_first()) + ss.last()));
    }
}

/// Parsing a concatenation of fixed-width blobs recovers them exactly.
proof fn lemma_parse_blobs_round(ss: Seq<Seq<u8>>, w: int)
    requires
        forall|i: int| 0 <= i < ss.len() ==> (#[trigger] ss[i]).len() == w,
        w >= 0,
    ensures
        parse_blobs(crate::tables::concat_bytes(ss), w, ss.len() as int) == Some(ss),
    decreases ss.len(),
{
    if ss.len() == 0 {
        assert(crate::tables::concat_bytes(ss) == Seq::<u8>::empty());
    } else {
        lemma_concat_bytes_cons(ss);
        let b = crate::tables::concat_bytes(ss);
        assert(ss[0].len() == w);
        assert(b.len() >= w);
        assert(b.take(w) =~= ss[0]);
        assert(b.skip(w) =~= crate::tables::concat_bytes(ss.drop_first()));
        assert forall|i: int| 0 <= i < ss.drop_first().len() implies (
        #[trigger] ss.drop_first()[i]).len() == w by {
            assert(ss.drop_first()[i] == ss[i + 1]);
        }
        lemma_parse_blobs_round(ss.drop_first(), w);
        assert(seq![ss[0]] + ss.drop_first() =~= ss);
    }
}

/// The attribute table round-trips: parsing an encoded table recovers
/// exactly the encoder's blobs, for any uniform width.
pub proof fn lemma_atr1_round_trip(bo: ByteOrder, width: u32, blobs: Seq<Seq<u8>>)
    requires
        forall|i: int| 0 <= i < blobs.len() ==> (#[trigger] blobs[i]).len() == width as int,
        blobs.len() < 0x100000000,
    ensures
        parse_atr1_table(bo, atr1_payload(bo, width, blobs)) == Some(blobs),
{
    let cnt32 = (blobs.len() % 0x100000000) as u32;
    assert(cnt32 as int == blobs.len());
    let b = atr1_payload(bo, width, blobs);
    assert(b =~= u32_bytes(bo, width) + (u32_bytes(bo, cnt32) + crate::tables::concat_bytes(
        blobs,
    )));
    assert(b[0] == u32_bytes(bo, width)[0]);
    assert(b[1] == u32_bytes(bo, width)[1]);
    assert(b[2] == u32_bytes(bo, width)[2]);
    assert(b[3] == u32_bytes(bo, width)[3]);
    crate::endian::lemma_u32_round(bo, width);
    assert(crate::endian::u32_at(bo, b, 0) == width);
    assert(b[4] == u32_bytes(bo, cnt32)[0]);
    assert(b[5] == u32_bytes(bo, cnt32)[1]);
    assert(b[6] == u32_bytes(bo, cnt32)[2]);
    assert(b[7] == u32_bytes(bo, cnt32)[3]);
    crate::endian::lemma_u32_round(bo, cnt32);
    assert(crate::endian::u32_at(bo, b, 4) == cnt32);
    assert(b.len() >= 8);
    assert(b.skip(8) =~= crate::tables::concat_bytes(blobs));
    lemma_parse_blobs_round(blobs, width as int);
}

/// Reads `cnt` style pairs off the front of `b` at `pos`.
pub open spec fn parse_spairs(bo: ByteOrder, b: Seq<u8>, pos: int, cnt: int) -> Option<
    Seq<(u32, u32)>,
>
    decreases cnt,
{
    if cnt <= 0 {
        Some(Seq::empty())
    } else if b.len() - pos < 8 {
        None
    } else {
        match parse_spairs(bo, b, pos + 8, cnt - 1) {
            None => None,
            Some(ps) => Some(
                seq![(crate::endian::u32_at(bo, b, pos), crate::endian::u32_at(bo, b, pos + 4))]
                    + ps,
            ),
        }
    }
}

/// Parses the style index payload: count, then the pairs.
pub open spec fn parse_nli1_table(bo: ByteOrder, b: Seq<u8>) -> Option<Seq<(u32, u32)>> {
    if b.len() < 4 {
        None
    } else {
        parse_spairs(bo, b, 4, crate::endian::u32_at(bo, b, 0) as int)
    }
}


/// A style-pair table is eight bytes per pair.
proof fn lemma_spairs_bytes_len(bo: ByteOrder, ps: Seq<(u32, u32)>)
    ensures
        crate::tables::spairs_bytes(bo, ps).len() == 8 * ps.len(),
    decreases ps.len(),
{
    if ps.len() > 0 {
        lemma_spairs_bytes_len(bo, ps.drop_last());
    }
}

/// Peeling the first pair off a style-pair table.
proof fn lemma_spairs_bytes_cons(bo: ByteOrder, ps: Seq<(u32, u32)>)
    requires
        ps.len() > 0,
    ensures
        crate::tables::spairs_bytes(bo, ps) == u32_bytes(bo, ps[0].0) + u32_bytes(bo, ps[0].1)
            + crate::tables::spairs_bytes(bo, ps.drop_first()),
    decreases ps.len(),
{
    if ps.len() == 1 {
        assert(ps.drop_last() =~= Seq::<(u32, u32)>::empty());
        assert(ps.drop_first() =~= Seq::<(u32, u32)>::empty());
        assert(ps.last() == ps[0]);
        assert(Seq::<u8>::empty() + u32_bytes(bo, ps[0].0) + u32_bytes(bo, ps[0].1) =~= u32_bytes(
            bo,
            ps[0].0,
        ) + u32_bytes(bo, ps[0].1) + Seq::<u8>::empty());
    } else {
        let init = ps.drop_last();
        lemma_spairs_bytes_cons(bo, init);
        assert(init[0] == ps[0]);
        assert(ps.drop_first().drop_last() =~= init.drop_first());
        assert(ps.drop_first().last() == ps.last());
        assert(crate::tables::spairs_bytes(bo, ps.drop_first()) == crate::tables::spairs_bytes(
            bo,
            init.drop_first(),
        ) + u32_bytes(bo, ps.last().0) + u32_bytes(bo, ps.last().1));
        assert(u32_bytes(bo, ps[0].0) + u32_bytes(bo, ps[0].1) + crate::tables::spairs_bytes(
            bo,
            init.drop_first(),
        ) + u32_bytes(bo, ps.last().0) + u32_bytes(bo, ps.last().1) =~= u32_bytes(bo, ps[0].0)
            + u32_bytes(bo, ps[0].1) + (crate::tables::spairs_bytes(bo, init.drop_first())
            + u32_bytes(bo, ps.last().0) + u32_bytes(bo, ps.last().1)));
    }
}

/// Parsing encoded style pairs at their position recovers them exactly.
#[verifier::rlimit(100)]
proof fn lemma_parse_spairs_round(bo: ByteOrder, b: Seq<u8>, pos: int, ps: Seq<(u32, u32)>)
    requires
        0 <= pos,
        pos + 8 * ps.len() <= b.len(),
        b.subrange(pos, pos + 8 * ps.len()) == crate::tables::spairs_bytes(bo, ps),
    ensures
        parse_spairs(bo, b, pos, ps.len() as int) == Some(ps),
    decreases ps.len(),
{
    lemma_spairs_bytes_len(bo, ps);
    if ps.len() > 0 {
        lemma_spairs_bytes_cons(bo, ps);
        let sb = crate::tables::spairs_bytes(bo, ps);
        assert forall|i: int| 0 <= i < 8 implies b[pos + i] == sb[i] by {
            assert(b.subrange(pos, pos + 8 * ps.len())[i] == b[pos + i]);
        }
        assert(sb[0] == u32_bytes(bo, ps[0].0)[0]);
        assert(sb[1] == u32_bytes(bo, ps[0].0)[1]);
        assert(sb[2] == u32_bytes(bo, ps[0].0)[2]);
        assert(sb[3] == u32_bytes(bo, ps[0].0)[3]);
        crate::endian::lemma_u32_round(bo, ps[0].0);
        assert(crate::endian::u32_at(bo, b, pos) == ps[0].0);
        assert(sb[4] == u32_bytes(bo, ps[0].1)[0]);
        assert(sb[5] == u32_bytes(bo, ps[0].1)[1]);
        assert(sb[6] == u32_bytes(bo, ps[0].1)[2]);
        assert(sb[7] == u32_bytes(bo, ps[0].1)[3]);
        crate::endian::lemma_u32_round(bo, ps[0].1);
        assert(crate::endian::u32_at(bo, b, pos + 4) == ps[0].1);
        let rest = ps.drop_first();
        lemma_spairs_bytes_len(bo, rest);
        assert forall|i: int| 0 <= i < 8 * rest.len() implies b[pos + 8 + i]
            == crate::tables::spairs_bytes(bo, rest)[i] by {
            assert(sb[8 + i] == crate::tables::spairs_bytes(bo, rest)[i]);
            assert(b.subrange(pos, pos + 8 * ps.len())[8 + i] == b[pos + 8 + i]);
        }
        assert(b.subrange(pos + 8, pos + 8 + 8 * (rest.len() as int)) =~= crate::tables::spairs_bytes(
            bo,
            rest,
        ));
        lemma_parse_spairs_round(bo, b, pos + 8, rest);
        assert(seq![ps[0]] + rest =~= ps);
        assert((ps[0].0, ps[0].1) == ps[0]);
    }
}

/// The style index round-trips: parsing an encoded table recovers exactly
/// the encoder's pairs.
pub proof fn lemma_nli1_round_trip(bo: ByteOrder, ps: Seq<(u32, u32)>)
    requires
        ps.len() < 0x100000000,
    ensures
        parse_nli1_table(bo, nli1_payload(bo, ps)) == Some(ps),
{
    let cnt32 = (ps.len() % 0x100000000) as u32;
    assert(cnt32 as int == ps.len());
    let b = nli1_payload(bo, ps);
    assert(b[0] == u32_bytes(bo, cnt32)[0]);
    assert(b[1] == u32_bytes(bo, cnt32)[1]);
    assert(b[2] == u32_bytes(bo, cnt32)[2]);
    assert(b[3] == u32_bytes(bo, cnt32)[3]);
    crate::endian::lemma_u32_round(bo, cnt32);
    assert(crate::endian::u32_at(bo, b, 0) == cnt32);
    lemma_spairs_bytes_len(bo, ps);
    assert(b.len() >= 4);
    assert(b.subrange(4, 4 + 8 * (ps.len() as int)) =~= crate::tables::spairs_bytes(bo, ps));
    lemma_parse_spairs_round(bo, b, 4, ps);
}

/// Reads `cnt` 32-bit text offsets starting at `pos`.
pub open spec fn parse_offsets(bo: ByteOrder, b: Seq<u8>, pos: int, cnt: int) -> Option<Seq<int>>
    decreases cnt,
{
    if cnt <= 0 {
        Some(Seq::empty())
    } else if b.len() - pos < 4 {
        None
    } else {
        match parse_offsets(bo, b, pos + 4, cnt - 1) {
            None => None,
            Some(os) => Some(seq![crate::endian::u32_at(bo, b, pos) as int] + os),
        }
    }
}

/// Parses entry `i` and beyond of the text payload: each entry's bytes run
/// from its offset to the next entry's offset, or the payload end.
pub open spec fn parse_texts(
    bo: ByteOrder,
    enc: Encoding,
    b: Seq<u8>,
    offs: Seq<int>,
    i: int,
) -> Result<Seq<Seq<SpecRun>>, MsbtError>
    decreases offs.len() - i,
{
    if i < 0 || i >= offs.len() {
        Ok(Seq::empty())
    } else {
        let start = offs[i];
        let end = if i + 1 < offs.len() {
            offs[i + 1]
        } else {
            b.len() as int
        };
        if start > b.len() || end > b.len() || start > end {
            Err(MsbtError::UnexpectedEof)
        } else {
            match crate::runs::parse_runs(bo, enc, b.subrange(start, end)) {
                Err(e) => Err(e),
                Ok(runs) => match parse_texts(bo, enc, b, offs, i + 1) {
                    Err(e) => Err(e),
                    Ok(ts) => Ok(seq![runs] + ts),
                },
            }
        }
    }
}

/// Parses the text section payload: count, offset table, then every entry.
pub open spec fn parse_txt2_table(bo: ByteOrder, enc: Encoding, b: Seq<u8>) -> Result<
    Seq<Seq<SpecRun>>,
    MsbtError,
> {
    if b.len() < 4 {
        Err(MsbtError::UnexpectedEof)
    } else {
        match parse_offsets(bo, b, 4, crate::endian::u32_at(bo, b, 0) as int) {
            None => Err(MsbtError::UnexpectedEof),
            Some(offs) => parse_texts(bo, enc, b, offs, 0),
        }
    }
}

/// The style id the style table assigns to entry `idx`, if any.
fn find_style(pairs: &Vec<(u32, u32)>, idx: u32) -> (r: Option<u32>)
    ensures
        r == spec_find_style(pairs@.map_values(|p: (u32, u32)| p), idx),
{
    let nv = Ghost(pairs@.map_values(|p: (u32, u32)| p));
    proof {
        assert(nv@.skip(0) =~= nv@);
    }
    let mut i: usize = 0;
    while i < pairs.len()
        invariant
            0 <= i <= pairs@.len(),
            nv@ == pairs@.map_values(|p: (u32, u32)| p),
            nv@.len() == pairs@.len(),
            spec_find_style(nv@, idx) == spec_find_style(nv@.skip(i as int), idx),
        decreases pairs@.len() - i,
    {
        proof {
            assert(nv@.skip(i as int)[0] == nv@[i as int]);
            assert(nv@[i as int] == pairs@[i as int]);
            assert(nv@.skip(i as int).drop_first() =~= nv@.skip(i + 1));
        }
        if pairs[i].0 == idx {
            return Some(pairs[i].1);
        }
        i = i + 1;
    }
    proof {
        assert(nv@.skip(nv@.len() as int) =~= Seq::<(u32, u32)>::empty());
    }
    None
}

/// Reads `cnt` label pairs at `pos`, mirroring [`crate::tables::parse_pairs`].
fn read_pairs(p: &Vec<u8>, pos: usize, cnt: u32, bo: ByteOrder) -> (r: Result<
    (Vec<(Vec<u8>, u32)>, usize),
    MsbtError,
>)
    requires
        pos <= p@.len(),
    ensures
        match r {
            Ok(v) => pos <= v.1 <= p@.len() && crate::tables::parse_pairs(
                bo,
                p@.skip(pos as int),
                cnt as int,
            ) == Some((lblpairs_view(v.0@), p@.skip(v.1 as int))),
            Err(e) => crate::tables::parse_pairs(bo, p@.skip(pos as int), cnt as int) is None && e
                == MsbtError::UnexpectedEof,
        },
    decreases cnt,
{
    let b = Ghost(p@.skip(pos as int));
    if cnt == 0 {
        let empty_ps: Vec<(Vec<u8>, u32)> = Vec::new();
        proof {
            assert(lblpairs_view(empty_ps@) =~= Seq::<(Seq<u8>, u32)>::empty());
        }
        return Ok((empty_ps, pos));
    }
    let ll = match read_u16(p, pos, bo) {
        Ok(x) => x,
        Err(_) => {
            return Err(MsbtError::UnexpectedEof);
        }
    };
    proof {
        assert(b@[0] == p@[pos as int]);
        assert(b@[1] == p@[pos as int + 1]);
        assert(u16_at(bo, b@, 0) == u16_at(bo, p@, pos as int));
    }
    let ll_us = ll as usize;
    if p.len() - (pos + 2) < ll_us || p.len() - (pos + 2 + ll_us) < 4 {
        return Err(MsbtError::UnexpectedEof);
    }
    let lab = vec_subrange(p, pos + 2, pos + 2 + ll_us);
    let idx = match read_u32(p, pos + 2 + ll_us, bo) {
        Ok(x) => x,
        Err(_) => {
            proof {
                assert(false);
            }
            return Err(MsbtError::UnexpectedEof);
        }
    };
    proof {
        assert(b@.subrange(2, 2 + ll as int) =~= p@.subrange(pos + 2, pos + 2 + ll as int));
        assert(b@[2 + ll as int] == p@[pos + 2 + ll as int]);
        assert(b@[2 + ll as int + 1] == p@[pos + 2 + ll as int + 1]);
        assert(b@[2 + ll as int + 2] == p@[pos + 2 + ll as int + 2]);
        assert(b@[2 + ll as int + 3] == p@[pos + 2 + ll as int + 3]);
        assert(crate::endian::u32_at(bo, b@, 2 + ll as int) == crate::endian::u32_at(
            bo,
            p@,
            pos + 2 + ll as int,
        ));
        assert(b@.skip(2 + ll as int + 4) =~= p@.skip(pos + 2 + ll as int + 4));
    }
    match read_pairs(p, pos + 2 + ll_us + 4, cnt - 1, bo) {
        Err(e) => Err(e),
        Ok((mut ps, p2)) => {
            let tail = Ghost(ps@);
            ps.insert(0, (lab, idx));
            proof {
                assert(lblpairs_view(ps@) =~= seq![(lab@, idx)] + lblpairs_view(tail@));
            }
            Ok((ps, p2))
        }
    }
}

/// Reads `k` buckets at `pos`, mirroring [`crate::tables::parse_buckets`].
fn read_buckets(p: &Vec<u8>, pos: usize, k: u32, bo: ByteOrder) -> (r: Result<
    (Vec<(Vec<u8>, u32)>, usize),
    MsbtError,
>)
    requires
        pos <= p@.len(),
    ensures
        match r {
            Ok(v) => pos <= v.1 <= p@.len() && crate::tables::parse_buckets(
                bo,
                p@.skip(pos as int),
                k as int,
            ) == Some((lblpairs_view(v.0@), p@.skip(v.1 as int))),
            Err(e) => crate::tables::parse_buckets(bo, p@.skip(pos as int), k as int) is None && e
                == MsbtError::UnexpectedEof,
        },
    decreases k,
{
    let b = Ghost(p@.skip(pos as int));
    if k == 0 {
        let empty_ps: Vec<(Vec<u8>, u32)> = Vec::new();
        proof {
            assert(lblpairs_view(empty_ps@) =~= Seq::<(Seq<u8>, u32)>::empty());
        }
        return Ok((empty_ps, pos));
    }
    let cnt = match read_u32(p, pos, bo) {
        Ok(x) => x,
        Err(_) => {
            return Err(MsbtError::UnexpectedEof);
        }
    };
    proof {
        assert(b@[0] == p@[pos as int]);
        assert(b@[1] == p@[pos as int + 1]);
        assert(b@[2] == p@[pos as int + 2]);
        assert(b@[3] == p@[pos as int + 3]);
        assert(crate::endian::u32_at(bo, b@, 0) == crate::endian::u32_at(bo, p@, pos as int));
    }
    let total: usize = p.len();
    proof {
        assert(pos + 4 <= total);
        assert(b@.skip(4) =~= p@.skip(pos + 4));
    }
    match read_pairs(p, pos + 4, cnt, bo) {
        Err(e) => Err(e),
        Ok((mut ps, p2)) => {
            match read_buckets(p, p2, k - 1, bo) {
                Err(e) => Err(e),
                Ok((mut ps2, p3)) => {
                    let av = Ghost(ps@);
                    let bv = Ghost(ps2@);
                    ps.append(&mut ps2);
                    proof {
                        assert(lblpairs_view(ps@) =~= lblpairs_view(av@) + lblpairs_view(bv@));
                    }
                    Ok((ps, p3))
                }
            }
        }
    }
}

/// Parses the label table payload into its `(label, entry index)` pairs, in
/// bucket-walk order, exactly as [`crate::tables::parse_lbl1_table`] says.
fn parse_lbl1(p: &Vec<u8>, bo: ByteOrder) -> (r: Result<Vec<(Vec<u8>, u32)>, MsbtError>)
    ensures
        match r {
            Ok(ps) => crate::tables::parse_lbl1_table(bo, p@) == Some(lblpairs_view(ps@)),
            Err(e) => crate::tables::parse_lbl1_table(bo, p@) is None && e
                == MsbtError::UnexpectedEof,
        },
{
    let bc = match read_u32(p, 0, bo) {
        Ok(x) => x,
        Err(_) => {
            return Err(MsbtError::UnexpectedEof);
        }
    };
    proof {
        assert(p@.skip(0) =~= p@);
    }
    match read_buckets(p, 4, bc, bo) {
        Err(e) => Err(e),
        Ok((ps, _)) => Ok(ps),
    }
}

/// Parses the attribute table payload into one fixed-width blob per entry,
/// exactly as [`parse_atr1_table`] says.
fn parse_atr1(p: &Vec<u8>, bo: ByteOrder) -> (r: Result<Vec<Vec<u8>>, MsbtError>)
    ensures
        match r {
            Ok(bs) => parse_atr1_table(bo, p@) == Some(blobs_view(bs@)),
            Err(e) => parse_atr1_table(bo, p@) is None && e == MsbtError::UnexpectedEof,
        },
{
    if p.len() < 8 {
        return Err(MsbtError::UnexpectedEof);
    }
    let width = match read_u32(p, 0, bo) {
        Ok(x) => x,
        Err(_) => {
            proof {
                assert(false);
            }
            return Err(MsbtError::UnexpectedEof);
        }
    };
    let count = match read_u32(p, 4, bo) {
        Ok(x) => x,
        Err(_) => {
            proof {
                assert(false);
            }
            return Err(MsbtError::UnexpectedEof);
        }
    };
    read_blobs(p, 8, width, count)
}

/// Reads `cnt` blobs of `w` bytes at `pos`, mirroring [`parse_blobs`].
fn read_blobs(p: &Vec<u8>, pos: usize, w: u32, cnt: u32) -> (r: Result<Vec<Vec<u8>>, MsbtError>)
    requires
        pos <= p@.len(),
    ensures
        match r {
            Ok(bs) => parse_blobs(p@.skip(pos as int), w as int, cnt as int) == Some(
                blobs_view(bs@),
            ),
            Err(e) => parse_blobs(p@.skip(pos as int), w as int, cnt as int) is None && e
                == MsbtError::UnexpectedEof,
        },
    decreases cnt,
{
    let b = Ghost(p@.skip(pos as int));
    if cnt == 0 {
        let empty_bs: Vec<Vec<u8>> = Vec::new();
        proof {
            assert(blobs_view(empty_bs@) =~= Seq::<Seq<u8>>::empty());
        }
        return Ok(empty_bs);
    }
    let w_us = w as usize;
    if p.len() - pos < w_us {
        return Err(MsbtError::UnexpectedEof);
    }
    let blob = vec_subrange(p, pos, pos + w_us);
    proof {
        assert(b@.take(w as int) =~= p@.subrange(pos as int, pos + w as int));
        assert(b@.skip(w as int) =~= p@.skip(pos + w as int));
    }
    match read_blobs(p, pos + w_us, w, cnt - 1) {
        Err(e) => Err(e),
        Ok(mut bs) => {
            let tail = Ghost(bs@);
            bs.insert(0, blob);
            proof {
                assert(blobs_view(bs@) =~= seq![blob@] + blobs_view(tail@));
            }
            Ok(bs)
        }
    }
}

/// Parses the style index payload into `(entry index, style id)` pairs,
/// exactly as [`parse_nli1_table`] says.
fn parse_nli1(p: &Vec<u8>, bo: ByteOrder) -> (r: Result<Vec<(u32, u32)>, MsbtError>)
    ensures
        match r {
            Ok(ps) => parse_nli1_table(bo, p@) == Some(ps@.map_values(|x: (u32, u32)| x)),
            Err(e) => parse_nli1_table(bo, p@) is None && e == MsbtError::UnexpectedEof,
        },
{
    if p.len() < 4 {
        return Err(MsbtError::UnexpectedEof);
    }
    let count = match read_u32(p, 0, bo) {
        Ok(x) => x,
        Err(_) => {
            proof {
                assert(false);
            }
            return Err(MsbtError::UnexpectedEof);
        }
    };
    read_spairs(p, 4, count, bo)
}

/// Reads `cnt` style pairs at `pos`, mirroring [`parse_spairs`].
fn read_spairs(p: &Vec<u8>, pos: usize, cnt: u32, bo: ByteOrder) -> (r: Result<
    Vec<(u32, u32)>,
    MsbtError,
>)
    requires
        pos <= p@.len(),
    ensures
        match r {
            Ok(ps) => parse_spairs(bo, p@, pos as int, cnt as int) == Some(
                ps@.map_values(|x: (u32, u32)| x),
            ),
            Err(e) => parse_spairs(bo, p@, pos as int, cnt as int) is None && e
                == MsbtError::UnexpectedEof,
        },
    decreases cnt,
{
    if cnt == 0 {
        let empty_ps: Vec<(u32, u32)> = Vec::new();
        proof {
            assert(empty_ps@.map_values(|x: (u32, u32)| x) =~= Seq::<(u32, u32)>::empty());
        }
        return Ok(empty_ps);
    }
    if p.len() - pos < 8 {
        return Err(MsbtError::UnexpectedEof);
    }
    let idx = match read_u32(p, pos, bo) {
        Ok(x) => x,
        Err(_) => {
            proof {
                assert(false);
            }
            return Err(MsbtError::UnexpectedEof);
        }
    };
    let style = match read_u32(p, pos + 4, bo) {
        Ok(x) => x,
        Err(_) => {
            proof {
                assert(false);
            }
            return Err(MsbtError::UnexpectedEof);
        }
    };
    match read_spairs(p, pos + 8, cnt - 1, bo) {
        Err(e) => Err(e),
        Ok(mut ps) => {
            let tail = Ghost(ps@);
            ps.insert(0, (idx, style));
            proof {
                assert(ps@.map_values(|x: (u32, u32)| x) =~= seq![(idx, style)] + tail@.map_values(
                    |x: (u32, u32)| x,
                ));
            }
            Ok(ps)
        }
    }
}

/// Reads `cnt` text offsets at `pos`, mirroring [`parse_offsets`].
fn read_offsets(p: &Vec<u8>, pos: usize, cnt: u32, bo: ByteOrder) -> (r: Result<
    Vec<usize>,
    MsbtError,
>)
    requires
        pos <= p@.len(),
    ensures
        match r {
            Ok(os) => parse_offsets(bo, p@, pos as int, cnt as int) == Some(
                os@.map_values(|o: usize| o as int),
            ),
            Err(e) => parse_offsets(bo, p@, pos as int, cnt as int) is None && e
                == MsbtError::UnexpectedEof,
        },
    decreases cnt,
{
    if cnt == 0 {
        let empty_os: Vec<usize> = Vec::new();
        proof {
            assert(empty_os@.map_values(|o: usize| o as int) =~= Seq::<int>::empty());
        }
        return Ok(empty_os);
    }
    if p.len() - pos < 4 {
        return Err(MsbtError::UnexpectedEof);
    }
    let off = match read_u32(p, pos, bo) {
        Ok(x) => x,
        Err(_) => {
            proof {
                assert(false);
            }
            return Err(MsbtError::UnexpectedEof);
        }
    };
    match read_offsets(p, pos + 4, cnt - 1, bo) {
        Err(e) => Err(e),
        Ok(mut os) => {
            let tail = Ghost(os@);
            os.insert(0, off as usize);
            proof {
                assert(os@.map_values(|o: usize| o as int) =~= seq![off as int]
                    + tail@.map_values(|o: usize| o as int));
            }
            Ok(os)
        }
    }
}

/// Decodes the entries `i..` of the text payload, mirroring [`parse_texts`].
fn read_texts(
    p: &Vec<u8>,
    offs: &Vec<usize>,
    i: usize,
    bo: ByteOrder,
    enc: Encoding,
) -> (r: Result<Vec<Vec<MsbtRun>>, MsbtError>)
    requires
        i <= offs@.len(),
    ensures
        match r {
            Ok(ts) => parse_texts(
                bo,
                enc,
                p@,
                offs@.map_values(|o: usize| o as int),
                i as int,
            ) == Ok::<Seq<Seq<SpecRun>>, MsbtError>(texts_view(ts@)),
            Err(e) => parse_texts(bo, enc, p@, offs@.map_values(|o: usize| o as int), i as int)
                == Err::<Seq<Seq<SpecRun>>, MsbtError>(e),
        },
    decreases offs@.len() - i,
{
    let ov = Ghost(offs@.map_values(|o: usize| o as int));
    if i == offs.len() {
        let empty_ts: Vec<Vec<MsbtRun>> = Vec::new();
        proof {
            assert(texts_view(empty_ts@) =~= Seq::<Seq<SpecRun>>::empty());
        }
        return Ok(empty_ts);
    }
    let start = offs[i];
    let end = if i + 1 < offs.len() {
        offs[i + 1]
    } else {
        p.len()
    };
    if start > p.len() || end > p.len() || start > end {
        return Err(MsbtError::UnexpectedEof);
    }
    let sub = vec_subrange(p, start, end);
    match decode_runs(&sub, 0, bo, enc) {
        Err(e) => {
            proof {
                assert(sub@.skip(0) =~= sub@);
            }
            Err(e)
        }
        Ok(runs) => {
            proof {
                assert(sub@.skip(0) =~= sub@);
            }
            match read_texts(p, offs, i + 1, bo, enc) {
                Err(e) => Err(e),
                Ok(mut ts) => {
                    let tail = Ghost(ts@);
                    ts.insert(0, runs);
                    proof {
                        assert(texts_view(ts@) =~= seq![crate::runs::runs_view(runs@)]
                            + texts_view(tail@));
                    }
                    Ok(ts)
                }
            }
        }
    }
}

/// Parses the text section payload, exactly as [`parse_txt2_table`] says.
fn parse_txt2(p: &Vec<u8>, bo: ByteOrder, enc: Encoding) -> (r: Result<
    Vec<Vec<MsbtRun>>,
    MsbtError,
>)
    ensures
        match r {
            Ok(ts) => parse_txt2_table(bo, enc, p@) == Ok::<Seq<Seq<SpecRun>>, MsbtError>(
                texts_view(ts@),
            ),
            Err(e) => parse_txt2_table(bo, enc, p@) == Err::<Seq<Seq<SpecRun>>, MsbtError>(e),
        },
{
    if p.len() < 4 {
        return Err(MsbtError::UnexpectedEof);
    }
    let count = match read_u32(p, 0, bo) {
        Ok(x) => x,
        Err(_) => {
            proof {
                assert(false);
            }
            return Err(MsbtError::UnexpectedEof);
        }
    };
    let offs = match read_offsets(p, 4, count, bo) {
        Ok(x) => x,
        Err(e) => {
            return Err(e);
        }
    };
    read_texts(p, &offs, 0, bo, enc)
}

/// The running result of the section walk: each recognized table once
/// parsed, and the opaque extras in order.
pub struct SecState {
    pub lbl: Option<Seq<(Seq<u8>, u32)>>,
    pub atr: Option<Seq<Seq<u8>>>,
    pub nli: Option<Seq<(u32, u32)>>,
    pub txt: Option<Seq<Seq<SpecRun>>>,
    pub extras: Seq<(Seq<u8>, Seq<u8>)>,
}

/// Walks `remaining` sections from `pos`, parsing each recognized table and
/// carrying unknown sections through opaquely.
pub open spec fn walk_sections(
    bo: ByteOrder,
    enc: Encoding,
    b: Seq<u8>,
    pos: int,
    remaining: int,
    st: SecState,
) -> Result<SecState, MsbtError>
    decreases remaining,
{
    if remaining <= 0 {
        Ok(st)
    } else if b.len() - pos < 16 {
        Err(MsbtError::UnexpectedEof)
    } else {
        let magic = b.subrange(pos, pos + 4);
        let plen = crate::endian::u32_at(bo, b, pos + 4) as int;
        if b.len() - (pos + 16) < plen {
            Err(MsbtError::UnexpectedEof)
        } else {
            let payload = b.subrange(pos + 16, pos + 16 + plen);
            if b.len() - (pos + 16 + plen) < pad16(plen) {
                Err(MsbtError::UnexpectedEof)
            } else {
                let newpos = pos + 16 + plen + pad16(plen);
                if magic == magic_lbl1() {
                    match crate::tables::parse_lbl1_table(bo, payload) {
                        None => Err(MsbtError::UnexpectedEof),
                        Some(ps) => walk_sections(
                            bo,
                            enc,
                            b,
                            newpos,
                            remaining - 1,
                            SecState { lbl: Some(ps), ..st },
                        ),
                    }
                } else if magic == magic_atr1() {
                    match parse_atr1_table(bo, payload) {
                        None => Err(MsbtError::UnexpectedEof),
                        Some(bs) => walk_sections(
                            bo,
                            enc,
                            b,
                            newpos,
                            remaining - 1,
                            SecState { atr: Some(bs), ..st },
                        ),
                    }
                } else if magic == magic_nli1() {
                    match parse_nli1_table(bo, payload) {
                        None => Err(MsbtError::UnexpectedEof),
                        Some(ps) => walk_sections(
                            bo,
                            enc,
                            b,
                            newpos,
                            remaining - 1,
                            SecState { nli: Some(ps), ..st },
                        ),
                    }
                } else if magic == magic_txt2() {
                    match parse_txt2_table(bo, enc, payload) {
                        Err(e) => Err(e),
                        Ok(ts) => walk_sections(
                            bo,
                            enc,
                            b,
                            newpos,
                            remaining - 1,
                            SecState { txt: Some(ts), ..st },
                        ),
                    }
                } else {
                    walk_sections(
                        bo,
                        enc,
                        b,
                        newpos,
                        remaining - 1,
                        SecState { extras: st.extras + seq![(magic, payload)], ..st },
                    )
                }
            }
        }
    }
}

/// The label table's entry indices are in range and pairwise distinct:
/// together with a matching count, dense over `0..n`.
pub open spec fn indices_ok(ps: Seq<(Seq<u8>, u32)>, n: int) -> bool {
    (forall|j: int| 0 <= j < ps.len() ==> (#[trigger] ps[j]).1 < n) && (forall|j: int, k: int|
        0 <= j < k < ps.len() ==> ps[j].1 != ps[k].1)
}

/// Every style pair points at an existing entry.
pub open spec fn styles_ok(nli: Seq<(u32, u32)>, n: int) -> bool {
    forall|j: int| 0 <= j < nli.len() ==> (#[trigger] nli[j]).0 < n
}

/// No two label-table pairs carry the same label string.
pub open spec fn decoded_labels_unique(ps: Seq<(Seq<u8>, u32)>) -> bool {
    forall|j: int, k: int| 0 <= j < k < ps.len() ==> ps[j].0 != ps[k].0
}

/// The entries `j..` of the decoded document, in bucket-walk order: each
/// label joined with the table rows its entry index selects.
pub open spec fn build_entries(
    lbl: Seq<(Seq<u8>, u32)>,
    atr: Seq<Seq<u8>>,
    nli: Seq<(u32, u32)>,
    txt: Seq<Seq<SpecRun>>,
    j: int,
) -> Seq<crate::model::SpecEntry>
    decreases lbl.len() - j,
{
    if j < 0 || j >= lbl.len() {
        Seq::empty()
    } else {
        seq![
            crate::model::SpecEntry {
                label: lbl[j].0,
                attributes: atr[lbl[j].1 as int],
                style: spec_find_style(nli, lbl[j].1),
                contents: txt[lbl[j].1 as int],
            },
        ] + build_entries(lbl, atr, nli, txt, j + 1)
    }
}

/// Cross-checks the parsed tables against each other and assembles the
/// document: the second half of [`spec_from_binary`].
pub open spec fn finish_decode(
    bo: ByteOrder,
    enc: Encoding,
    version: u16,
    st: SecState,
) -> Result<SpecDoc, MsbtError> {
    match (st.lbl, st.atr, st.txt) {
        (Some(lbl), Some(atr), Some(txt)) => {
            let nli = match st.nli {
                Some(x) => x,
                None => Seq::empty(),
            };
            let n = txt.len() as int;
            if lbl.len() != n || !indices_ok(lbl, n) {
                Err(MsbtError::MalformedLabelTable)
            } else if atr.len() != n {
                Err(MsbtError::MalformedAttributeTable)
            } else if !styles_ok(nli, n) {
                Err(MsbtError::MalformedLabelTable)
            } else if !decoded_labels_unique(lbl) {
                Err(MsbtError::DuplicateLabel)
            } else {
                Ok(
                    SpecDoc {
                        byte_order: bo,
                        encoding: enc,
                        version,
                        entries: build_entries(lbl, atr, nli, txt, 0),
                        extra_sections: st.extras,
                    },
                )
            }
        },
        _ => Err(MsbtError::MissingRequiredSection),
    }
}

/// What decoding a byte buffer yields: the total, deterministic function of
/// the bytes that [`Msbt::from_binary`] is proved to compute.
pub open spec fn spec_from_binary(data: Seq<u8>) -> Result<SpecDoc, MsbtError> {
    if data.len() < 32 {
        Err(MsbtError::UnexpectedEof)
    } else if data.subrange(0, 8) != header_magic() {
        Err(MsbtError::BadMagic)
    } else if data.subrange(8, 10) != bom_bytes(ByteOrder::Little) && data.subrange(8, 10)
        != bom_bytes(ByteOrder::Big) {
        Err(MsbtError::BadMagic)
    } else {
        let bo = if data.subrange(8, 10) == bom_bytes(ByteOrder::Little) {
            ByteOrder::Little
        } else {
            ByteOrder::Big
        };
        if data[11] != 0 && data[11] != 1 {
            Err(MsbtError::BadMagic)
        } else {
            let enc = if data[11] == 0 {
                Encoding::Utf16
            } else {
                Encoding::Utf8
            };
            let version = u16_at(bo, data, 12);
            let nsec = u16_at(bo, data, 14) as int;
            let init = SecState { lbl: None, atr: None, nli: None, txt: None, extras: Seq::empty() };
            match walk_sections(bo, enc, data, 32, nsec, init) {
                Err(e) => Err(e),
                Ok(st) => finish_decode(bo, enc, version, st),
            }
        }
    }
}

/// The model of one decoder intermediate: a maybe-parsed label table.
pub open spec fn opt_lbl_view(o: Option<Vec<(Vec<u8>, u32)>>) -> Option<Seq<(Seq<u8>, u32)>> {
    match o {
        None => None,
        Some(v) => Some(lblpairs_view(v@)),
    }
}

/// The model of a maybe-parsed attribute table.
pub open spec fn opt_atr_view(o: Option<Vec<Vec<u8>>>) -> Option<Seq<Seq<u8>>> {
    match o {
        None => None,
        Some(v) => Some(blobs_view(v@)),
    }
}

/// The model of a maybe-parsed style table.
pub open spec fn opt_nli_view(o: Option<Vec<(u32, u32)>>) -> Option<Seq<(u32, u32)>> {
    match o {
        None => None,
        Some(v) => Some(v@.map_values(|x: (u32, u32)| x)),
    }
}

/// The model of a maybe-parsed text table.
pub open spec fn opt_txt_view(o: Option<Vec<Vec<MsbtRun>>>) -> Option<Seq<Seq<SpecRun>>> {
    match o {
        None => None,
        Some(v) => Some(texts_view(v@)),
    }
}

/// The model of the decoder's running section state.
pub open spec fn state_view(
    lbl: Option<Vec<(Vec<u8>, u32)>>,
    atr: Option<Vec<Vec<u8>>>,
    nli: Option<Vec<(u32, u32)>>,
    txt: Option<Vec<Vec<MsbtRun>>>,
    extras: Seq<(Seq<u8>, Seq<u8>)>,
) -> SecState {
    SecState {
        lbl: opt_lbl_view(lbl),
        atr: opt_atr_view(atr),
        nli: opt_nli_view(nli),
        txt: opt_txt_view(txt),
        extras: extras,
    }
}

/// Walks the declared number of sections, parsing each recognized table,
/// exactly as [`walk_sections`] from position 32 says.
#[verifier::rlimit(100)]
#[verifier::loop_isolation(false)]
fn walk_exec(v: &Vec<u8>, bo: ByteOrder, enc: Encoding, nsec: u16) -> (r: Result<
    (
        Option<Vec<(Vec<u8>, u32)>>,
        Option<Vec<Vec<u8>>>,
        Option<Vec<(u32, u32)>>,
        Option<Vec<Vec<MsbtRun>>>,
        Vec<ExtraSection>,
    ),
    MsbtError,
>)
    requires
        v@.len() >= 32,
    ensures
        ({
            let init = SecState { lbl: None, atr: None, nli: None, txt: None, extras: Seq::empty() };
            match r {
                Ok(t) => walk_sections(bo, enc, v@, 32, nsec as int, init) == Ok::<
                    SecState,
                    MsbtError,
                >(
                    state_view(
                        t.0,
                        t.1,
                        t.2,
                        t.3,
                        t.4@.map_values(|x: ExtraSection| (x.magic@, x.payload@)),
                    ),
                ),
                Err(e) => walk_sections(bo, enc, v@, 32, nsec as int, init) == Err::<
                    SecState,
                    MsbtError,
                >(e),
            }
        }),
{
    let m_lbl = magic_vec(0x4C, 0x42, 0x4C, 0x31);
    let m_atr = magic_vec(0x41, 0x54, 0x52, 0x31);
    let m_nli = magic_vec(0x4E, 0x4C, 0x49, 0x31);
    let m_txt = magic_vec(0x54, 0x58, 0x54, 0x32);
    let mut lbl_opt: Option<Vec<(Vec<u8>, u32)>> = None;
    let mut atr_opt: Option<Vec<Vec<u8>>> = None;
    let mut nli_opt: Option<Vec<(u32, u32)>> = None;
    let mut txt_opt: Option<Vec<Vec<MsbtRun>>> = None;
    let mut extras: Vec<ExtraSection> = Vec::new();
    let exv = Ghost(|xs: Seq<ExtraSection>| xs.map_values(|x: ExtraSection| (x.magic@, x.payload@)));
    let init = Ghost(SecState { lbl: None, atr: None, nli: None, txt: None, extras: Seq::empty() });
    let walk_all = Ghost(walk_sections(bo, enc, v@, 32, nsec as int, init@));
    proof {
        assert(exv@(extras@) =~= Seq::<(Seq<u8>, Seq<u8>)>::empty());
        assert(state_view(lbl_opt, atr_opt, nli_opt, txt_opt, exv@(extras@)) == init@);
    }
    let mut pos: usize = 32;
    let mut si: u16 = 0;
    while si < nsec
        invariant
            pos <= v@.len(),
            walk_sections(
                bo,
                enc,
                v@,
                pos as int,
                nsec - si,
                state_view(lbl_opt, atr_opt, nli_opt, txt_opt, exv@(extras@)),
            ) == walk_all@,
        decreases nsec - si,
    {
        let stv = Ghost(state_view(lbl_opt, atr_opt, nli_opt, txt_opt, exv@(extras@)));
        if v.len() - pos < 16 {
            return Err(MsbtError::UnexpectedEof);
        }
        let smagic = vec_subrange(v, pos, pos + 4);
        proof {
            assert(smagic@ == v@.subrange(pos as int, pos + 4));
        }
        let plen32 = match read_u32(v, pos + 4, bo) {
            Ok(x) => x,
            Err(e) => {
                proof {
                    assert(false);
                }
                return Err(e);
            }
        };
        let plen = plen32 as usize;
        let payload_start = pos + 16;
        if v.len() - payload_start < plen {
            return Err(MsbtError::UnexpectedEof);
        }
        let payload = vec_subrange(v, payload_start, payload_start + plen);
        proof {
            assert(payload@ == v@.subrange(pos + 16, pos + 16 + plen as int));
        }
        let after = payload_start + plen;
        let pad = (16 - (plen % 16)) % 16;
        proof {
            assert(pad as int == pad16(plen as int));
        }
        if v.len() - after < pad {
            return Err(MsbtError::UnexpectedEof);
        }
        let newpos = after + pad;
        if bytes_eq(&smagic, &m_lbl) {
            proof {
                assert(smagic@ == magic_lbl1());
            }
            match parse_lbl1(&payload, bo) {
                Ok(x) => {
                    lbl_opt = Some(x);
                }
                Err(e) => {
                    return Err(e);
                }
            }
        } else if bytes_eq(&smagic, &m_atr) {
            proof {
                assert(smagic@ == magic_atr1());
            }
            match parse_atr1(&payload, bo) {
                Ok(x) => {
                    atr_opt = Some(x);
                }
                Err(e) => {
                    return Err(e);
                }
            }
        } else if bytes_eq(&smagic, &m_nli) {
            proof {
                assert(smagic@ == magic_nli1());
            }
            match parse_nli1(&payload, bo) {
                Ok(x) => {
                    nli_opt = Some(x);
                }
                Err(e) => {
                    return Err(e);
                }
            }
        } else if bytes_eq(&smagic, &m_txt) {
            proof {
                assert(smagic@ == magic_txt2());
            }
            match parse_txt2(&payload, bo, enc) {
                Ok(x) => {
                    txt_opt = Some(x);
                }
                Err(e) => {
                    return Err(e);
                }
            }
        } else {
            let pre = Ghost(extras@);
            extras.push(ExtraSection { magic: smagic, payload });
            proof {
                assert(exv@(extras@) =~= exv@(pre@) + seq![
                    (v@.subrange(pos as int, pos + 4), v@.subrange(pos + 16, pos + 16 + plen as int)),
                ]);
            }
        }
        proof {
            assert(walk_sections(
                bo,
                enc,
                v@,
                newpos as int,
                nsec - si - 1,
                state_view(lbl_opt, atr_opt, nli_opt, txt_opt, exv@(extras@)),
            ) == walk_sections(bo, enc, v@, pos as int, nsec - si, stv@));
        }
        pos = newpos;
        si = si + 1;
    }
    Ok((lbl_opt, atr_opt, nli_opt, txt_opt, extras))
}

/// Cross-checks the parsed tables and assembles the document, exactly as
/// [`finish_decode`] says.
#[verifier::rlimit(100)]
#[verifier::loop_isolation(false)]
fn build_document(
    lbl_opt: Option<Vec<(Vec<u8>, u32)>>,
    atr_opt: Option<Vec<Vec<u8>>>,
    nli_opt: Option<Vec<(u32, u32)>>,
    txt_opt: Option<Vec<Vec<MsbtRun>>>,
    extras: Vec<ExtraSection>,
    bo: ByteOrder,
    enc: Encoding,
    version: u16,
) -> (r: Result<Msbt, MsbtError>)
    ensures
        ({
            let st = state_view(
                lbl_opt,
                atr_opt,
                nli_opt,
                txt_opt,
                extras@.map_values(|x: ExtraSection| (x.magic@, x.payload@)),
            );
            match r {
                Ok(m) => finish_decode(bo, enc, version, st) == Ok::<SpecDoc, MsbtError>(m@),
                Err(e) => finish_decode(bo, enc, version, st) == Err::<SpecDoc, MsbtError>(e),
            }
        }),
{
    let exv = Ghost(extras@.map_values(|x: ExtraSection| (x.magic@, x.payload@)));
    let lbl_pairs = match lbl_opt {
        Some(x) => x,
        None => {
            return Err(MsbtError::MissingRequiredSection);
        }
    };
    let atr_blobs = match atr_opt {
        Some(x) => x,
        None => {
            return Err(MsbtError::MissingRequiredSection);
        }
    };
    let texts = match txt_opt {
        Some(x) => x,
        None => {
            return Err(MsbtError::MissingRequiredSection);
        }
    };
    let had_nli = Ghost(nli_opt is Some);
    let nli_pairs = match nli_opt {
        Some(x) => x,
        None => Vec::new(),
    };
    let lblv = Ghost(lblpairs_view(lbl_pairs@));
    let nliv = Ghost(nli_pairs@.map_values(|x: (u32, u32)| x));
    proof {
        if !had_nli@ {
            assert(nliv@ =~= Seq::<(u32, u32)>::empty());
        }
    }
    let n = texts.len();
    // the label table must cover exactly the text entries, densely
    if lbl_pairs.len() != n {
        return Err(MsbtError::MalformedLabelTable);
    }
    let mut a: usize = 0;
    while a < lbl_pairs.len()
        invariant
            0 <= a <= lbl_pairs@.len(),
            forall|j: int| 0 <= j < a ==> (#[trigger] lblv@[j]).1 < n,
            forall|j: int, k: int| 0 <= j < k < lbl_pairs@.len() && j < a ==> lblv@[j].1 != lblv@[k].1,
        decreases lbl_pairs@.len() - a,
    {
        if lbl_pairs[a].1 as usize >= n {
            proof {
                assert(lblv@[a as int].1 >= n);
                assert(!indices_ok(lblv@, n as int));
            }
            return Err(MsbtError::MalformedLabelTable);
        }
        let mut b: usize = a + 1;
        while b < lbl_pairs.len()
            invariant
                a < b <= lbl_pairs@.len(),
                forall|k: int| a < k < b ==> lblv@[a as int].1 != (#[trigger] lblv@[k]).1,
            decreases lbl_pairs@.len() - b,
        {
            if lbl_pairs[a].1 == lbl_pairs[b].1 {
                proof {
                    assert(lblv@[a as int].1 == lblv@[b as int].1);
                    assert(!indices_ok(lblv@, n as int));
                }
                return Err(MsbtError::MalformedLabelTable);
            }
            b = b + 1;
        }
        a = a + 1;
    }
    proof {
        assert(indices_ok(lblv@, n as int));
    }
    // the attribute table must cover exactly the entries
    if atr_blobs.len() != n {
        return Err(MsbtError::MalformedAttributeTable);
    }
    let mut s: usize = 0;
    while s < nli_pairs.len()
        invariant
            0 <= s <= nli_pairs@.len(),
            forall|j: int| 0 <= j < s ==> (#[trigger] nliv@[j]).0 < n,
        decreases nli_pairs@.len() - s,
    {
        if nli_pairs[s].0 as usize >= n {
            proof {
                assert(nliv@[s as int].0 >= n);
                assert(!styles_ok(nliv@, n as int));
            }
            return Err(MsbtError::MalformedLabelTable);
        }
        s = s + 1;
    }
    proof {
        assert(styles_ok(nliv@, n as int));
    }
    // no two entries may share a label
    let mut a2: usize = 0;
    while a2 < lbl_pairs.len()
        invariant
            0 <= a2 <= lbl_pairs@.len(),
            forall|j: int, k: int|
                0 <= j < k < lbl_pairs@.len() && j < a2 ==> lblv@[j].0 != lblv@[k].0,
        decreases lbl_pairs@.len() - a2,
    {
        let mut b2: usize = a2 + 1;
        while b2 < lbl_pairs.len()
            invariant
                a2 < b2 <= lbl_pairs@.len(),
                forall|k: int| a2 < k < b2 ==> lblv@[a2 as int].0 != (#[trigger] lblv@[k]).0,
            decreases lbl_pairs@.len() - b2,
        {
            if bytes_eq(&lbl_pairs[a2].0, &lbl_pairs[b2].0) {
                proof {
                    assert(lblv@[a2 as int].0 == lblv@[b2 as int].0);
                    assert(!decoded_labels_unique(lblv@));
                }
                return Err(MsbtError::DuplicateLabel);
            }
            b2 = b2 + 1;
        }
        a2 = a2 + 1;
    }
    proof {
        assert(decoded_labels_unique(lblv@));
    }
    // assemble the entries in bucket-walk order
    let atrv = Ghost(blobs_view(atr_blobs@));
    let txtv = Ghost(texts_view(texts@));
    let mut entries: Vec<MsbtEntry> = Vec::new();
    let mut j: usize = 0;
    while j < lbl_pairs.len()
        invariant
            0 <= j <= lbl_pairs@.len(),
            entries_view(entries@) + build_entries(lblv@, atrv@, nliv@, txtv@, j as int)
                == build_entries(lblv@, atrv@, nliv@, txtv@, 0),
        decreases lbl_pairs@.len() - j,
    {
        proof {
            assert(lblv@[j as int].1 < n);
        }
        let idx = lbl_pairs[j].1 as usize;
        let label = vec_subrange(&lbl_pairs[j].0, 0, lbl_pairs[j].0.len());
        let attributes = vec_subrange(&atr_blobs[idx], 0, atr_blobs[idx].len());
        let contents = copy_runs(&texts[idx]);
        let style = find_style(&nli_pairs, lbl_pairs[j].1);
        let pre = Ghost(entries@);
        entries.push(MsbtEntry { label, attributes, style, contents });
        proof {
            assert(label@ =~= lblv@[j as int].0);
            assert(attributes@ =~= atrv@[idx as int]);
            assert(crate::runs::runs_view(contents@) == txtv@[idx as int]);
            assert(entries@.last()@ == crate::model::SpecEntry {
                label: lblv@[j as int].0,
                attributes: atrv@[lblv@[j as int].1 as int],
                style: spec_find_style(nliv@, lblv@[j as int].1),
                contents: txtv@[lblv@[j as int].1 as int],
            });
            assert(entries_view(entries@) =~= entries_view(pre@) + seq![entries@.last()@]);
            assert(build_entries(lblv@, atrv@, nliv@, txtv@, j as int) == seq![entries@.last()@]
                + build_entries(lblv@, atrv@, nliv@, txtv@, j + 1));
            assert(entries_view(entries@) + build_entries(lblv@, atrv@, nliv@, txtv@, j + 1)
                =~= entries_view(pre@) + build_entries(lblv@, atrv@, nliv@, txtv@, j as int));
        }
        j = j + 1;
    }
    proof {
        assert(build_entries(lblv@, atrv@, nliv@, txtv@, lbl_pairs@.len() as int)
            == Seq::<crate::model::SpecEntry>::empty());
        assert(entries_view(entries@) + Seq::<crate::model::SpecEntry>::empty() =~= entries_view(
            entries@,
        ));
    }
    let m = Msbt { byte_order: bo, encoding: enc, version, entries, extra_sections: extras };
    proof {
        assert(m@.entries =~= entries_view(m.entries@));
        assert(m@.extra_sections =~= exv@);
    }
    Ok(m)
}

impl Msbt {
    /// Encodes this document to canonical bytes in the requested byte order.
    ///
    /// Fails with `DuplicateLabel` when two entries share a label, and with
    /// `MalformedAttributeTable` when the entries' attribute blobs do not
    /// all have one width; otherwise the output is exactly [`doc_bytes`] of
    /// the document.
    #[verifier::rlimit(100)]
    #[verifier::spinoff_prover]
    pub fn to_binary(&self, big_endian: bool) -> (r: Result<Vec<u8>, MsbtError>)
        requires
            doc_sizes_ok(
                with_order(
                    self@,
                    if big_endian {
                        ByteOrder::Big
                    } else {
                        ByteOrder::Little
                    },
                ),
            ),
        ensures
            match r {
                Ok(bytes) => self@.labels_unique() && self@.attrs_uniform() && bytes@ == doc_bytes(
                    with_order(
                        self@,
                        if big_endian {
                            ByteOrder::Big
                        } else {
                            ByteOrder::Little
                        },
                    ),
                ),
                Err(e) => (e == MsbtError::DuplicateLabel && !self@.labels_unique()) || (e
                    == MsbtError::MalformedAttributeTable && self@.labels_unique()
                    && !self@.attrs_uniform()),
            },
    {
        let bo = if big_endian {
            ByteOrder::Big
        } else {
            ByteOrder::Little
        };
        let d2 = Ghost(with_order(self@, bo));
        proof {
            assert(d2@.entries =~= entries_view(self.entries@));
        }
        let n = self.entries.len();
        if !labels_all_unique(&self.entries) {
            proof {
                let (a, b) = choose|a: int, b: int|
                    0 <= a < b < self.entries@.len() && (#[trigger] self.entries@[a]).label@
                        == (#[trigger] self.entries@[b]).label@;
                assert(self@.entries[a].label == self@.entries[b].label);
                assert(!self@.labels_unique());
            }
            return Err(MsbtError::DuplicateLabel);
        }
        proof {
            assert forall|a: int, b: int|
                0 <= a < b < self@.entries.len() implies self@.entries[a].label
                != self@.entries[b].label by {
                assert(self@.entries[a].label == self.entries@[a].label@);
                assert(self@.entries[b].label == self.entries@[b].label@);
            }
            assert(self@.labels_unique());
        }
        if !attrs_all_uniform(&self.entries) {
            proof {
                let a = choose|a: int|
                    0 <= a < self.entries@.len() && (#[trigger] self.entries@[a]).attributes@.len()
                        != self.entries@[0].attributes@.len();
                assert(self@.entries[a].attributes.len() != self@.entries[0].attributes.len());
                assert(!self@.attrs_uniform());
            }
            return Err(MsbtError::MalformedAttributeTable);
        }
        proof {
            assert forall|a: int| 0 <= a < self@.entries.len() implies (
            #[trigger] self@.entries[a]).attributes.len() == self@.entries[0].attributes.len() by {
                assert(self@.entries[a].attributes == self.entries@[a].attributes@);
            }
            assert(self@.attrs_uniform());
        }
        proof {
            reveal(doc_sizes_ok);
        }
        let width: u32 = if n == 0 {
            0
        } else {
            self.entries[0].attributes.len() as u32
        };
        let styles_n = count_styles(&self.entries);
        proof {
            assert(style_pairs(d2@.entries).len() == style_pairs(entries_view(self.entries@)).len());
        }
        let body = encode_body(
            bo,
            self.encoding,
            &self.entries,
            &self.extra_sections,
            width,
            styles_n,
            Ghost(d2@),
        );
        // header: section count and total size, re-derived from content
        let nsec: usize = 3 + (if styles_n > 0 {
            1
        } else {
            0
        }) + self.extra_sections.len();
        let total: usize = 32 + body.len();
        let mut out: Vec<u8> = Vec::new();
        write_header(&mut out, bo, self.encoding, self.version, nsec as u16, total as u32);
        append_bytes(&mut out, &body);
        proof {
            assert(nsec as int == section_count(d2@));
            assert(nsec as u16 == (section_count(d2@) % 0x10000) as u16);
            assert(total as u32 == (((32 + body_bytes(d2@).len()) as int) % 0x100000000) as u32);
            assert(doc_bytes(d2@) == header_bytes(
                d2@.byte_order,
                d2@.encoding,
                d2@.version,
                ((section_count(d2@) % 0x10000) as u16),
                (((32 + body_bytes(d2@).len()) as int % 0x100000000) as u32),
            ) + body_bytes(d2@));
            assert(out@ =~= doc_bytes(d2@));
        }
        Ok(out)
    }

    /// Decodes a document from its binary bytes.
    ///
    /// The result is exactly [`spec_from_binary`] of the bytes — a pure
    /// function of the input, success and every error kind included. A
    /// buffer shorter than the 32-byte header, or one whose declared
    /// payloads run past its end, is `UnexpectedEof`; an unknown magic
    /// signature, byte-order mark or encoding flag is `BadMagic`; on
    /// success the header fields are exactly what the header bytes say.
    #[verifier::loop_isolation(false)]
    #[verifier::rlimit(100)]
    pub fn from_binary(data: &[u8]) -> (r: Result<Msbt, MsbtError>)
        ensures
            match r {
                Ok(m) => spec_from_binary(data@) == Ok::<SpecDoc, MsbtError>(m@),
                Err(e) => spec_from_binary(data@) == Err::<SpecDoc, MsbtError>(e),
            },
            data@.len() < 32 ==> r == Err::<Msbt, MsbtError>(MsbtError::UnexpectedEof),
            data@.len() >= 32 && data@.subrange(0, 8) != header_magic() ==> r == Err::<
                Msbt,
                MsbtError,
            >(MsbtError::BadMagic),
            match r {
                Ok(doc) => data@.len() >= 32 && data@.subrange(0, 8) == header_magic()
                    && data@.subrange(8, 10) == bom_bytes(doc.byte_order) && data@[11] == enc_flag(
                    doc.encoding,
                ) && doc.version == u16_at(doc.byte_order, data@, 12),
                Err(_) => true,
            },
    {
        let v = vstd::slice::slice_to_vec(data);
        if v.len() < 32 {
            return Err(MsbtError::UnexpectedEof);
        }
        let magic_ok = v[0] == 0x4D && v[1] == 0x73 && v[2] == 0x67 && v[3] == 0x53 && v[4] == 0x74
            && v[5] == 0x64 && v[6] == 0x42 && v[7] == 0x6E;
        if !magic_ok {
            proof {
                if data@.subrange(0, 8) == header_magic() {
                    assert(data@[0] == header_magic()[0]);
                    assert(data@[1] == header_magic()[1]);
                    assert(data@[2] == header_magic()[2]);
                    assert(data@[3] == header_magic()[3]);
                    assert(data@[4] == header_magic()[4]);
                    assert(data@[5] == header_magic()[5]);
                    assert(data@[6] == header_magic()[6]);
                    assert(data@[7] == header_magic()[7]);
                    assert(false);
                }
            }
            return Err(MsbtError::BadMagic);
        }
        proof {
            assert(data@.subrange(0, 8) =~= header_magic());
        }
        let bo = if v[8] == 0xFF && v[9] == 0xFE {
            ByteOrder::Little
        } else if v[8] == 0xFE && v[9] == 0xFF {
            ByteOrder::Big
        } else {
            proof {
                assert(data@.subrange(8, 10)[0] == data@[8]);
                assert(data@.subrange(8, 10)[1] == data@[9]);
            }
            return Err(MsbtError::BadMagic);
        };
        proof {
            assert(data@.subrange(8, 10) =~= bom_bytes(bo));
            assert(bom_bytes(ByteOrder::Little) != bom_bytes(ByteOrder::Big)) by {
                assert(bom_bytes(ByteOrder::Little)[0] == 0xFF);
                assert(bom_bytes(ByteOrder::Big)[0] == 0xFE);
            }
        }
        let enc = if v[11] == 0 {
            Encoding::Utf16
        } else if v[11] == 1 {
            Encoding::Utf8
        } else {
            return Err(MsbtError::BadMagic);
        };
        let version = match read_u16(&v, 12, bo) {
            Ok(x) => x,
            Err(e) => {
                proof {
                    assert(false);
                }
                return Err(e);
            }
        };
        let nsec = match read_u16(&v, 14, bo) {
            Ok(x) => x,
            Err(e) => {
                proof {
                    assert(false);
                }
                return Err(e);
            }
        };
        let (lbl_opt, atr_opt, nli_opt, txt_opt, extras) = match walk_exec(&v, bo, enc, nsec) {
            Ok(t) => t,
            Err(e) => {
                proof {
                    assert(v@ == data@);
                }
                return Err(e);
            }
        };
        proof {
            assert(v@ == data@);
        }
        let m = match build_document(lbl_opt, atr_opt, nli_opt, txt_opt, extras, bo, enc, version) {
            Ok(m) => m,
            Err(e) => {
                return Err(e);
            }
        };
        proof {
            assert(spec_from_binary(data@) == Ok::<SpecDoc, MsbtError>(m@));
        }
        Ok(m)
    }
}

} // verus!