//! The content codec of the text section: interleaved text runs and control
//! tags inside one entry's code-unit stream.
//!
//! A control tag is framed as the sentinel code unit `0x000E`, then the tag
//! group, kind and parameter byte length as three 16-bit fields in document
//! byte order, then that many raw parameter bytes, then the closing marker
//! code unit `0x000F`. Every other code unit belongs to the current text run,
//! which is flushed at a tag boundary or at the end of the entry.

use vstd::prelude::*;

use crate::endian::u16_at;
use crate::endian::u16_bytes;
use crate::endian::write_u16;
use crate::endian::ByteOrder;
use crate::endian::Encoding;
use crate::error::MsbtError;
use crate::model::contents_wf;
use crate::model::MsbtRun;
use crate::model::SpecRun;

verus! {

/// The models of a list of runs.
pub open spec fn runs_view(rs: Seq<MsbtRun>) -> Seq<SpecRun> {
    rs.map_values(|r: MsbtRun| r@)
}

/// The bytes of one code unit: two bytes in document byte order for UTF-16,
/// the low byte alone for UTF-8.
pub open spec fn unit_bytes(bo: ByteOrder, enc: Encoding, u: u16) -> Seq<u8> {
    match enc {
        Encoding::Utf16 => u16_bytes(bo, u),
        Encoding::Utf8 => seq![(u % 0x100) as u8],
    }
}

/// The bytes of a sequence of code units.
pub open spec fn units_bytes(bo: ByteOrder, enc: Encoding, units: Seq<u16>) -> Seq<u8>
    decreases units.len(),
{
    if units.len() == 0 {
        Seq::empty()
    } else {
        unit_bytes(bo, enc, units[0]) + units_bytes(bo, enc, units.drop_first())
    }
}

/// The bytes of one run: a text run is its code units; a control tag is the
/// sentinel, three 16-bit header fields, the raw parameter bytes, and the
/// closing marker.
pub open spec fn run_bytes(bo: ByteOrder, enc: Encoding, r: SpecRun) -> Seq<u8> {
    match r {
        SpecRun::Text(units) => units_bytes(bo, enc, units),
        SpecRun::ControlTag { group, kind, parameters } => unit_bytes(bo, enc, 0x0E) + u16_bytes(
            bo,
            group,
        ) + u16_bytes(bo, kind) + u16_bytes(bo, (parameters.len() % 0x10000) as u16) + parameters
            + unit_bytes(bo, enc, 0x0F),
    }
}

/// The bytes of a whole run sequence: one entry's text payload.
pub open spec fn runs_bytes(bo: ByteOrder, enc: Encoding, runs: Seq<SpecRun>) -> Seq<u8>
    decreases runs.len(),
{
    if runs.len() == 0 {
        Seq::empty()
    } else {
        run_bytes(bo, enc, runs[0]) + runs_bytes(bo, enc, runs.drop_first())
    }
}

/// Reads one code unit off the front of `b`.
pub open spec fn parse_unit(bo: ByteOrder, enc: Encoding, b: Seq<u8>) -> Option<(u16, Seq<u8>)> {
    match enc {
        Encoding::Utf8 => if b.len() >= 1 {
            Some((b[0] as u16, b.skip(1)))
        } else {
            None
        },
        Encoding::Utf16 => if b.len() >= 2 {
            Some((u16_at(bo, b, 0), b.skip(2)))
        } else {
            None
        },
    }
}

/// Parses a whole entry payload into runs, accumulating maximal text runs.
///
/// A truncated code unit is `UnexpectedEof`; a bare closing marker, or a tag
/// whose header, parameter region or closing marker is truncated or whose
/// closing marker is wrong, is `InvalidControlTag`.
pub open spec fn parse_runs(bo: ByteOrder, enc: Encoding, b: Seq<u8>) -> Result<
    Seq<SpecRun>,
    MsbtError,
>
    decreases b.len(),
{
    if b.len() == 0 {
        Ok(Seq::empty())
    } else {
        match parse_unit(bo, enc, b) {
            None => Err(MsbtError::UnexpectedEof),
            Some((u, rest)) => {
                if u == 0x0E {
                    parse_tag_branch(bo, enc, rest)
                } else if u == 0x0F {
                    Err(MsbtError::InvalidControlTag)
                } else {
                    match parse_runs(bo, enc, rest) {
                        Err(e) => Err(e),
                        Ok(runs) => {
                            if runs.len() > 0 && runs[0] is Text {
                                Ok(
                                    seq![SpecRun::Text(seq![u] + runs[0]->Text_0)]
                                        + runs.drop_first(),
                                )
                            } else {
                                Ok(seq![SpecRun::Text(seq![u])] + runs)
                            }
                        },
                    }
                }
            },
        }
    }
}

/// What follows an opening sentinel: the tag's three 16-bit header fields,
/// its raw parameters, its closing marker, then the rest of the payload.
pub open spec fn parse_tag_branch(bo: ByteOrder, enc: Encoding, rest: Seq<u8>) -> Result<
    Seq<SpecRun>,
    MsbtError,
>
    decreases rest.len(),
{
    if rest.len() < 6 {
        Err(MsbtError::InvalidControlTag)
    } else {
        let group = u16_at(bo, rest, 0);
        let kind = u16_at(bo, rest, 2);
        let plen = u16_at(bo, rest, 4) as int;
        let after = rest.skip(6);
        if after.len() < plen {
            Err(MsbtError::InvalidControlTag)
        } else {
            match parse_unit(bo, enc, after.skip(plen)) {
                None => Err(MsbtError::InvalidControlTag),
                Some((m, rest2)) => {
                    if m != 0x0F {
                        Err(MsbtError::InvalidControlTag)
                    } else {
                        match parse_runs(bo, enc, rest2) {
                            Err(e) => Err(e),
                            Ok(runs) => Ok(
                                seq![
                                    SpecRun::ControlTag {
                                        group,
                                        kind,
                                        parameters: after.take(plen),
                                    },
                                ] + runs,
                            ),
                        }
                    }
                },
            }
        }
    }
}

/// A unit written and read back is itself (in UTF-8 mode, for units that fit
/// one byte), and parsing resumes exactly after it.
pub proof fn lemma_parse_unit(bo: ByteOrder, enc: Encoding, u: u16, t: Seq<u8>)
    requires
        enc == Encoding::Utf8 ==> u < 0x100,
    ensures
        parse_unit(bo, enc, unit_bytes(bo, enc, u) + t) == Some((u, t)),
{
    let b = unit_bytes(bo, enc, u) + t;
    match enc {
        Encoding::Utf8 => {
            assert(b[0] == (u % 0x100) as u8);
            assert(b.skip(1) =~= t);
        }
        Encoding::Utf16 => {
            crate::endian::lemma_u16_at_prefix(bo, u16_bytes(bo, u), t, 0);
            crate::endian::lemma_u16_round(bo, u);
            assert(b.skip(2) =~= t);
        }
    }
}

/// Appending one more unit appends its bytes.
pub proof fn lemma_units_bytes_snoc(bo: ByteOrder, enc: Encoding, s: Seq<u16>, x: u16)
    ensures
        units_bytes(bo, enc, s + seq![x]) == units_bytes(bo, enc, s) + unit_bytes(bo, enc, x),
    decreases s.len(),
{
    if s.len() == 0 {
        assert((s + seq![x])[0] == x);
        assert((s + seq![x]).drop_first() =~= Seq::<u16>::empty());
        assert(units_bytes(bo, enc, Seq::<u16>::empty()) == Seq::<u8>::empty());
        assert(units_bytes(bo, enc, s + seq![x]) == unit_bytes(bo, enc, x) + Seq::<u8>::empty());
        assert(unit_bytes(bo, enc, x) + Seq::<u8>::empty() =~= unit_bytes(bo, enc, x));
        assert(units_bytes(bo, enc, s) + unit_bytes(bo, enc, x) =~= unit_bytes(bo, enc, x));
    } else {
        assert((s + seq![x])[0] == s[0]);
        assert((s + seq![x]).drop_first() =~= s.drop_first() + seq![x]);
        lemma_units_bytes_snoc(bo, enc, s.drop_first(), x);
        assert(units_bytes(bo, enc, s + seq![x]) == unit_bytes(bo, enc, s[0]) + (units_bytes(
            bo,
            enc,
            s.drop_first(),
        ) + unit_bytes(bo, enc, x)));
        assert(units_bytes(bo, enc, s) == unit_bytes(bo, enc, s[0]) + units_bytes(
            bo,
            enc,
            s.drop_first(),
        ));
        assert(unit_bytes(bo, enc, s[0]) + (units_bytes(bo, enc, s.drop_first()) + unit_bytes(
            bo,
            enc,
            x,
        )) =~= (unit_bytes(bo, enc, s[0]) + units_bytes(bo, enc, s.drop_first())) + unit_bytes(
            bo,
            enc,
            x,
        ));
    }
}

/// Appending one more run appends its bytes.
pub proof fn lemma_runs_bytes_snoc(bo: ByteOrder, enc: Encoding, s: Seq<SpecRun>, x: SpecRun)
    ensures
        runs_bytes(bo, enc, s + seq![x]) == runs_bytes(bo, enc, s) + run_bytes(bo, enc, x),
    decreases s.len(),
{
    if s.len() == 0 {
        assert((s + seq![x])[0] == x);
        assert((s + seq![x]).drop_first() =~= Seq::<SpecRun>::empty());
        assert(runs_bytes(bo, enc, Seq::<SpecRun>::empty()) == Seq::<u8>::empty());
        assert(runs_bytes(bo, enc, s + seq![x]) == run_bytes(bo, enc, x) + Seq::<u8>::empty());
        assert(run_bytes(bo, enc, x) + Seq::<u8>::empty() =~= run_bytes(bo, enc, x));
        assert(runs_bytes(bo, enc, s) + run_bytes(bo, enc, x) =~= run_bytes(bo, enc, x));
    } else {
        assert((s + seq![x])[0] == s[0]);
        assert((s + seq![x]).drop_first() =~= s.drop_first() + seq![x]);
        lemma_runs_bytes_snoc(bo, enc, s.drop_first(), x);
        assert(runs_bytes(bo, enc, s + seq![x]) == run_bytes(bo, enc, s[0]) + (runs_bytes(
            bo,
            enc,
            s.drop_first(),
        ) + run_bytes(bo, enc, x)));
        assert(runs_bytes(bo, enc, s) == run_bytes(bo, enc, s[0]) + runs_bytes(
            bo,
            enc,
            s.drop_first(),
        ));
        assert(run_bytes(bo, enc, s[0]) + (runs_bytes(bo, enc, s.drop_first()) + run_bytes(
            bo,
            enc,
            x,
        )) =~= (run_bytes(bo, enc, s[0]) + runs_bytes(bo, enc, s.drop_first())) + run_bytes(
            bo,
            enc,
            x,
        ));
    }
}

/// Dropping the first run keeps a run sequence well-formed.
pub proof fn lemma_contents_wf_tail(runs: Seq<SpecRun>, enc: Encoding)
    requires
        contents_wf(runs, enc),
        runs.len() > 0,
    ensures
        contents_wf(runs.drop_first(), enc),
{
    let rest = runs.drop_first();
    assert forall|i: int| 0 <= i < rest.len() implies #[trigger] rest[i].wf(enc) by {
        assert(rest[i] == runs[i + 1]);
    }
    assert forall|i: int| 0 <= i < rest.len() - 1 implies !((#[trigger] rest[i]) is Text && rest[i
        + 1] is Text) by {
        assert(rest[i] == runs[i + 1]);
        assert(rest[i + 1] == runs[i + 2]);
    }
}

/// Parsing bytes that open with a framed control tag yields that tag and
/// parses on after it.
#[verifier::rlimit(100)]
#[verifier::spinoff_prover]
pub proof fn lemma_parse_tag_prefix(
    bo: ByteOrder,
    enc: Encoding,
    group: u16,
    kind: u16,
    parameters: Seq<u8>,
    restb: Seq<u8>,
)
    requires
        parameters.len() < 0x10000,
    ensures
        parse_runs(
            bo,
            enc,
            run_bytes(bo, enc, SpecRun::ControlTag { group, kind, parameters }) + restb,
        ) == match parse_runs(bo, enc, restb) {
            Ok(rs) => Ok::<Seq<SpecRun>, MsbtError>(
                seq![SpecRun::ControlTag { group, kind, parameters }] + rs,
            ),
            Err(e) => Err::<Seq<SpecRun>, MsbtError>(e),
        },
{
    let pl16 = (parameters.len() % 0x10000) as u16;
    assert(pl16 as int == parameters.len());
    let b = run_bytes(bo, enc, SpecRun::ControlTag { group, kind, parameters }) + restb;
    let tail = u16_bytes(bo, group) + u16_bytes(bo, kind) + u16_bytes(bo, pl16) + parameters
        + unit_bytes(bo, enc, 0x0F) + restb;
    assert(b =~= unit_bytes(bo, enc, 0x0E) + tail);
    lemma_parse_unit(bo, enc, 0x0E, tail);
    assert(parse_unit(bo, enc, b) == Some((0x0Eu16, tail)));
    assert(b.len() > 0);
    assert(tail.len() >= 6);
    assert(tail[0] == u16_bytes(bo, group)[0]);
    assert(tail[1] == u16_bytes(bo, group)[1]);
    crate::endian::lemma_u16_round(bo, group);
    assert(u16_at(bo, tail, 0) == group);
    assert(tail[2] == u16_bytes(bo, kind)[0]);
    assert(tail[3] == u16_bytes(bo, kind)[1]);
    crate::endian::lemma_u16_round(bo, kind);
    assert(u16_at(bo, tail, 2) == kind);
    assert(tail[4] == u16_bytes(bo, pl16)[0]);
    assert(tail[5] == u16_bytes(bo, pl16)[1]);
    crate::endian::lemma_u16_round(bo, pl16);
    assert(u16_at(bo, tail, 4) == pl16);
    let after = tail.skip(6);
    assert(after =~= parameters + unit_bytes(bo, enc, 0x0F) + restb);
    assert(after.len() >= parameters.len());
    assert(after.take(parameters.len() as int) =~= parameters);
    assert(after.skip(parameters.len() as int) =~= unit_bytes(bo, enc, 0x0F) + restb);
    lemma_parse_unit(bo, enc, 0x0F, restb);
    assert(parse_runs(bo, enc, b) == parse_tag_branch(bo, enc, tail));
    assert(after.take(pl16 as int) == parameters);
    match parse_runs(bo, enc, restb) {
        Ok(rs) => {
            assert(parse_tag_branch(bo, enc, tail) == Ok::<Seq<SpecRun>, MsbtError>(
                seq![SpecRun::ControlTag { group, kind, parameters }] + rs,
            ));
        }
        Err(e) => {
            assert(parse_tag_branch(bo, enc, tail) == Err::<Seq<SpecRun>, MsbtError>(e));
        }
    }
}

/// Parsing bytes that open with one ordinary code unit folds it into the
/// front of whatever parses after it.
pub proof fn lemma_parse_text_unit_prefix(bo: ByteOrder, enc: Encoding, u: u16, restb: Seq<u8>)
    requires
        u != 0x0E,
        u != 0x0F,
        enc == Encoding::Utf8 ==> u < 0x100,
    ensures
        parse_runs(bo, enc, unit_bytes(bo, enc, u) + restb) == match parse_runs(bo, enc, restb) {
            Ok(rs) => if rs.len() > 0 && rs[0] is Text {
                Ok::<Seq<SpecRun>, MsbtError>(
                    seq![SpecRun::Text(seq![u] + rs[0]->Text_0)] + rs.drop_first(),
                )
            } else {
                Ok::<Seq<SpecRun>, MsbtError>(seq![SpecRun::Text(seq![u])] + rs)
            },
            Err(e) => Err::<Seq<SpecRun>, MsbtError>(e),
        },
{
    let b = unit_bytes(bo, enc, u) + restb;
    lemma_parse_unit(bo, enc, u, restb);
    assert(parse_unit(bo, enc, b) == Some((u, restb)));
    assert(b.len() > 0);
}

/// Splitting the first unit off a leading text run keeps a run sequence
/// well-formed.
proof fn lemma_contents_wf_text_split(runs: Seq<SpecRun>, enc: Encoding)
    requires
        contents_wf(runs, enc),
        runs.len() > 0,
        runs[0] is Text,
        runs[0]->Text_0.len() > 1,
    ensures
        contents_wf(seq![SpecRun::Text(runs[0]->Text_0.drop_first())] + runs.drop_first(), enc),
{
    let units = runs[0]->Text_0;
    let dropped = units.drop_first();
    let rest = runs.drop_first();
    let runs2 = seq![SpecRun::Text(dropped)] + rest;
    assert(runs[0].wf(enc));
    assert forall|i: int| 0 <= i < dropped.len() implies dropped[i] != 0x0E && dropped[i] != 0x0F
        && (enc == Encoding::Utf8 ==> dropped[i] < 0x100) by {
        assert(dropped[i] == units[i + 1]);
    }
    assert(runs2[0].wf(enc));
    assert forall|i: int| 0 <= i < runs2.len() implies #[trigger] runs2[i].wf(enc) by {
        if i > 0 {
            assert(runs2[i] == runs[i]);
        }
    }
    assert forall|i: int| 0 <= i < runs2.len() - 1 implies !((#[trigger] runs2[i]) is Text
        && runs2[i + 1] is Text) by {
        if i == 0 {
            assert(runs2[1] == runs[1]);
            assert(!(runs[1] is Text));
        } else {
            assert(runs2[i] == runs[i]);
            assert(runs2[i + 1] == runs[i + 1]);
        }
    }
}

/// Parsing the encoding of a well-formed run sequence recovers it exactly:
/// the codec of entry contents, control tags included, round-trips.
#[verifier::rlimit(100)]
pub proof fn lemma_runs_round_trip(bo: ByteOrder, enc: Encoding, runs: Seq<SpecRun>)
    requires
        contents_wf(runs, enc),
    ensures
        parse_runs(bo, enc, runs_bytes(bo, enc, runs)) == Ok::<Seq<SpecRun>, MsbtError>(runs),
    decreases runs.len(), 1int, 0int,
{
    if runs.len() == 0 {
        assert(runs_bytes(bo, enc, runs) == Seq::<u8>::empty());
        assert(runs =~= Seq::<SpecRun>::empty());
    } else if runs[0] is Text {
        lemma_text_round_trip(bo, enc, runs);
    } else {
        let rest = runs.drop_first();
        lemma_contents_wf_tail(runs, enc);
        let b = runs_bytes(bo, enc, runs);
        assert(b == run_bytes(bo, enc, runs[0]) + runs_bytes(bo, enc, rest));
        let group = runs[0]->ControlTag_group;
        let kind = runs[0]->ControlTag_kind;
        let parameters = runs[0]->ControlTag_parameters;
        assert(runs[0] is ControlTag);
        assert(runs[0] == SpecRun::ControlTag { group, kind, parameters });
        assert(runs[0].wf(enc));
        lemma_runs_round_trip(bo, enc, rest);
        lemma_parse_tag_prefix(bo, enc, group, kind, parameters, runs_bytes(bo, enc, rest));
        assert(seq![runs[0]] + rest =~= runs);
    }
}

/// The text-run case of [`lemma_runs_round_trip`], peeling one unit at a
/// time.
#[verifier::rlimit(100)]
proof fn lemma_text_round_trip(bo: ByteOrder, enc: Encoding, runs: Seq<SpecRun>)
    requires
        contents_wf(runs, enc),
        runs.len() > 0,
        runs[0] is Text,
    ensures
        parse_runs(bo, enc, runs_bytes(bo, enc, runs)) == Ok::<Seq<SpecRun>, MsbtError>(runs),
    decreases runs.len(), 0int, runs[0]->Text_0.len(),
{
    let rest = runs.drop_first();
    lemma_contents_wf_tail(runs, enc);
    let b = runs_bytes(bo, enc, runs);
    assert(b == run_bytes(bo, enc, runs[0]) + runs_bytes(bo, enc, rest));
    let units = runs[0]->Text_0;
    assert(runs[0].wf(enc));
    let u = units[0];
    assert(u != 0x0E && u != 0x0F);
    assert(enc == Encoding::Utf8 ==> u < 0x100);
    let dropped = units.drop_first();
    let tail = units_bytes(bo, enc, dropped) + runs_bytes(bo, enc, rest);
    assert(units_bytes(bo, enc, units) == unit_bytes(bo, enc, u) + units_bytes(bo, enc, dropped));
    assert(b =~= unit_bytes(bo, enc, u) + tail);
    lemma_parse_text_unit_prefix(bo, enc, u, tail);
    if units.len() > 1 {
        let runs2 = seq![SpecRun::Text(dropped)] + rest;
        assert(runs2[0] == SpecRun::Text(dropped));
        assert(runs2.drop_first() =~= rest);
        assert(runs_bytes(bo, enc, runs2) == run_bytes(bo, enc, runs2[0]) + runs_bytes(
            bo,
            enc,
            rest,
        ));
        assert(runs_bytes(bo, enc, runs2) =~= tail);
        lemma_contents_wf_text_split(runs, enc);
        lemma_text_round_trip(bo, enc, runs2);
        assert(parse_runs(bo, enc, tail) == Ok::<Seq<SpecRun>, MsbtError>(runs2));
        assert(runs2.len() > 0 && runs2[0] is Text);
        assert(seq![u] + runs2[0]->Text_0 =~= units);
        assert(parse_runs(bo, enc, b) == Ok::<Seq<SpecRun>, MsbtError>(
            seq![SpecRun::Text(seq![u] + runs2[0]->Text_0)] + runs2.drop_first(),
        ));
        assert(seq![SpecRun::Text(units)] + rest =~= runs);
    } else {
        assert(dropped.len() == 0);
        assert(units_bytes(bo, enc, dropped) == Seq::<u8>::empty());
        assert(tail =~= runs_bytes(bo, enc, rest));
        lemma_runs_round_trip(bo, enc, rest);
        assert(parse_runs(bo, enc, tail) == Ok::<Seq<SpecRun>, MsbtError>(rest));
        if rest.len() > 0 {
            assert(rest[0] == runs[1]);
            assert(!(rest[0] is Text));
        }
        assert(seq![u] =~= units);
        assert(parse_runs(bo, enc, b) == Ok::<Seq<SpecRun>, MsbtError>(
            seq![SpecRun::Text(seq![u])] + rest,
        ));
        assert(seq![SpecRun::Text(units)] + rest =~= runs);
    }
}

/// Appends one code unit's bytes.
pub fn write_unit(out: &mut Vec<u8>, bo: ByteOrder, enc: Encoding, u: u16)
    ensures
        final(out)@ == old(out)@ + unit_bytes(bo, enc, u),
{
    match enc {
        Encoding::Utf16 => write_u16(out, bo, u),
        Encoding::Utf8 => {
            out.push((u % 0x100) as u8);
            assert(out@ =~= old(out)@ + unit_bytes(bo, enc, u));
        }
    }
}

/// Control-tag parameters must fit the 16-bit length field of the framing.
pub open spec fn run_sizes_ok(r: SpecRun) -> bool {
    match r {
        SpecRun::Text(_) => true,
        SpecRun::ControlTag { parameters, .. } => parameters.len() < 0x10000,
    }
}

/// Appends the code units of one text run.
fn write_units(out: &mut Vec<u8>, bo: ByteOrder, enc: Encoding, units: &Vec<u16>)
    ensures
        final(out)@ == old(out)@ + units_bytes(bo, enc, units@),
{
    let mut j: usize = 0;
    while j < units.len()
        invariant
            0 <= j <= units@.len(),
            out@ == old(out)@ + units_bytes(bo, enc, units@.take(j as int)),
        decreases units@.len() - j,
    {
        write_unit(out, bo, enc, units[j]);
        proof {
            assert(units@.take(j + 1) =~= units@.take(j as int) + seq![units@[j as int]]);
            lemma_units_bytes_snoc(bo, enc, units@.take(j as int), units@[j as int]);
        }
        j = j + 1;
    }
    proof {
        assert(units@.take(units@.len() as int) =~= units@);
    }
}

/// Appends the raw parameter bytes of a control tag.
fn write_params(out: &mut Vec<u8>, parameters: &Vec<u8>)
    ensures
        final(out)@ == old(out)@ + parameters@,
{
    let mut j: usize = 0;
    while j < parameters.len()
        invariant
            0 <= j <= parameters@.len(),
            out@ == old(out)@ + parameters@.take(j as int),
        decreases parameters@.len() - j,
    {
        out.push(parameters[j]);
        proof {
            assert(parameters@.take(j + 1) =~= parameters@.take(j as int) + seq![
                parameters@[j as int],
            ]);
        }
        j = j + 1;
    }
    proof {
        assert(parameters@.take(parameters@.len() as int) =~= parameters@);
    }
}

/// Appends the framed bytes of one run.
fn write_run(out: &mut Vec<u8>, bo: ByteOrder, enc: Encoding, run: &MsbtRun)
    requires
        run_sizes_ok(run@),
    ensures
        final(out)@ == old(out)@ + run_bytes(bo, enc, run@),
{
    match run {
        MsbtRun::Text(units) => {
            write_units(out, bo, enc, units);
        }
        MsbtRun::ControlTag { group, kind, parameters } => {
            write_unit(out, bo, enc, 0x0E);
            write_u16(out, bo, *group);
            write_u16(out, bo, *kind);
            write_u16(out, bo, (parameters.len() % 0x10000) as u16);
            write_params(out, parameters);
            write_unit(out, bo, enc, 0x0F);
            assert(out@ =~= old(out)@ + run_bytes(bo, enc, run@));
        }
    }
}

/// Appends the framed bytes of `runs`: the encoder of one entry's payload.
pub fn encode_runs(out: &mut Vec<u8>, bo: ByteOrder, enc: Encoding, runs: &Vec<MsbtRun>)
    requires
        forall|i: int| 0 <= i < runs@.len() ==> run_sizes_ok(#[trigger] runs_view(runs@)[i]),
    ensures
        final(out)@ == old(out)@ + runs_bytes(bo, enc, runs_view(runs@)),
{
    let mut i: usize = 0;
    while i < runs.len()
        invariant
            0 <= i <= runs@.len(),
            forall|k: int| 0 <= k < runs@.len() ==> run_sizes_ok(#[trigger] runs_view(runs@)[k]),
            out@ == old(out)@ + runs_bytes(bo, enc, runs_view(runs@).take(i as int)),
        decreases runs@.len() - i,
    {
        proof {
            assert(runs_view(runs@)[i as int] == runs@[i as int]@);
        }
        write_run(out, bo, enc, &runs[i]);
        proof {
            assert(runs_view(runs@).take(i + 1) =~= runs_view(runs@).take(i as int) + seq![
                runs_view(runs@)[i as int],
            ]);
            lemma_runs_bytes_snoc(
                bo,
                enc,
                runs_view(runs@).take(i as int),
                runs_view(runs@)[i as int],
            );
        }
        i = i + 1;
    }
    proof {
        assert(runs_view(runs@).take(runs@.len() as int) =~= runs_view(runs@));
    }
}

/// Reads one code unit at `pos`, mirroring [`parse_unit`].
fn read_unit(b: &Vec<u8>, pos: usize, bo: ByteOrder, enc: Encoding) -> (r: Option<(u16, usize)>)
    requires
        pos <= b@.len(),
    ensures
        match r {
            Some(v) => pos < v.1 <= b@.len() && parse_unit(bo, enc, b@.skip(pos as int)) == Some(
                (v.0, b@.skip(v.1 as int)),
            ),
            None => parse_unit(bo, enc, b@.skip(pos as int)) is None,
        },
{
    match enc {
        Encoding::Utf8 => {
            if pos < b.len() {
                let u = b[pos] as u16;
                proof {
                    assert(b@.skip(pos as int)[0] == b@[pos as int]);
                    assert(b@.skip(pos as int).skip(1) =~= b@.skip(pos + 1));
                }
                Some((u, pos + 1))
            } else {
                None
            }
        }
        Encoding::Utf16 => {
            if pos < b.len() && b.len() - pos >= 2 {
                let a = b[pos];
                let c = b[pos + 1];
                let u: u16 = match bo {
                    ByteOrder::Little => a as u16 + (c as u16) * 0x100,
                    ByteOrder::Big => c as u16 + (a as u16) * 0x100,
                };
                proof {
                    assert(b@.skip(pos as int)[0] == b@[pos as int]);
                    assert(b@.skip(pos as int)[1] == b@[pos as int + 1]);
                    assert(b@.skip(pos as int).skip(2) =~= b@.skip(pos + 2));
                }
                Some((u, pos + 2))
            } else {
                None
            }
        }
    }
}

/// Puts `run` in front of the decoded runs.
fn prepend_run(runs: &mut Vec<MsbtRun>, run: MsbtRun)
    ensures
        runs_view(final(runs)@) == seq![run@] + runs_view(old(runs)@),
{
    let tail = Ghost(runs@);
    runs.insert(0, run);
    proof {
        assert(runs_view(runs@) =~= seq![run@] + runs_view(tail@));
    }
}

/// Folds one ordinary code unit into the front of the decoded runs, merging
/// with a leading text run when there is one.
fn prepend_text_unit(runs: &mut Vec<MsbtRun>, u: u16)
    ensures
        runs_view(final(runs)@) == (if runs_view(old(runs)@).len() > 0 && runs_view(old(runs)@)[0]
            is Text {
            seq![SpecRun::Text(seq![u] + runs_view(old(runs)@)[0]->Text_0)] + runs_view(
                old(runs)@,
            ).drop_first()
        } else {
            seq![SpecRun::Text(seq![u])] + runs_view(old(runs)@)
        }),
{
    let tail = Ghost(runs@);
    if runs.len() > 0 {
        let first = runs.remove(0);
        proof {
            assert(first@ == runs_view(tail@)[0]);
            assert(runs@ =~= tail@.drop_first());
        }
        match first {
            MsbtRun::Text(mut units) => {
                let ug = Ghost(units@);
                units.insert(0, u);
                proof {
                    assert(units@ =~= seq![u] + ug@);
                }
                runs.insert(0, MsbtRun::Text(units));
                proof {
                    assert(runs_view(runs@) =~= seq![
                        SpecRun::Text(seq![u] + runs_view(tail@)[0]->Text_0),
                    ] + runs_view(tail@).drop_first());
                }
            }
            MsbtRun::ControlTag { group, kind, parameters } => {
                runs.insert(0, MsbtRun::ControlTag { group, kind, parameters });
                proof {
                    assert(runs@ =~= tail@);
                }
                let mut v: Vec<u16> = Vec::new();
                v.push(u);
                runs.insert(0, MsbtRun::Text(v));
                proof {
                    assert(seq![u] =~= Seq::<u16>::empty().push(u));
                    assert(runs_view(runs@) =~= seq![SpecRun::Text(seq![u])] + runs_view(tail@));
                }
            }
        }
    } else {
        let mut v: Vec<u16> = Vec::new();
        v.push(u);
        runs.insert(0, MsbtRun::Text(v));
        proof {
            assert(seq![u] =~= Seq::<u16>::empty().push(u));
            assert(runs_view(runs@) =~= seq![SpecRun::Text(seq![u])] + runs_view(tail@));
        }
    }
}

/// Decodes a control tag's framing from just after its opening sentinel,
/// then the rest of the payload, exactly as [`parse_tag_branch`] describes.
#[verifier::rlimit(100)]
fn decode_tag(b: &Vec<u8>, p1: usize, bo: ByteOrder, enc: Encoding) -> (r: Result<
    Vec<MsbtRun>,
    MsbtError,
>)
    requires
        p1 <= b@.len(),
    ensures
        match r {
            Ok(runs) => parse_tag_branch(bo, enc, b@.skip(p1 as int)) == Ok::<
                Seq<SpecRun>,
                MsbtError,
            >(runs_view(runs@)),
            Err(e) => parse_tag_branch(bo, enc, b@.skip(p1 as int)) == Err::<
                Seq<SpecRun>,
                MsbtError,
            >(e),
        },
    decreases b@.len() - p1, 0int,
{
    if b.len() - p1 < 6 {
        return Err(MsbtError::InvalidControlTag);
    }
    let rest = Ghost(b@.skip(p1 as int));
    proof {
        assert(rest@.len() >= 6);
        assert(rest@[0] == b@[p1 as int]);
        assert(rest@[1] == b@[p1 as int + 1]);
        assert(rest@[2] == b@[p1 as int + 2]);
        assert(rest@[3] == b@[p1 as int + 3]);
        assert(rest@[4] == b@[p1 as int + 4]);
        assert(rest@[5] == b@[p1 as int + 5]);
    }
    let group = match crate::endian::read_u16(b, p1, bo) {
        Ok(v) => v,
        Err(e) => {
            proof {
                assert(false);
            }
            return Err(e);
        }
    };
    let kind = match crate::endian::read_u16(b, p1 + 2, bo) {
        Ok(v) => v,
        Err(e) => {
            proof {
                assert(false);
            }
            return Err(e);
        }
    };
    let plen16 = match crate::endian::read_u16(b, p1 + 4, bo) {
        Ok(v) => v,
        Err(e) => {
            proof {
                assert(false);
            }
            return Err(e);
        }
    };
    proof {
        assert(u16_at(bo, rest@, 0) == u16_at(bo, b@, p1 as int));
        assert(u16_at(bo, rest@, 2) == u16_at(bo, b@, p1 as int + 2));
        assert(u16_at(bo, rest@, 4) == u16_at(bo, b@, p1 as int + 4));
    }
    let plen = plen16 as usize;
    let after_pos = p1 + 6;
    let after = Ghost(rest@.skip(6));
    proof {
        assert(after@ =~= b@.skip(after_pos as int));
    }
    if b.len() - after_pos < plen {
        return Err(MsbtError::InvalidControlTag);
    }
    let params = crate::bytes::vec_subrange(b, after_pos, after_pos + plen);
    proof {
        assert(params@ =~= after@.take(plen as int));
    }
    match read_unit(b, after_pos + plen, bo, enc) {
        None => {
            proof {
                assert(after@.skip(plen as int) =~= b@.skip(after_pos + plen));
            }
            Err(MsbtError::InvalidControlTag)
        }
        Some((m, p2)) => {
            proof {
                assert(after@.skip(plen as int) =~= b@.skip(after_pos + plen));
            }
            if m != 0x0F {
                return Err(MsbtError::InvalidControlTag);
            }
            match decode_runs(b, p2, bo, enc) {
                Err(e) => Err(e),
                Ok(mut runs) => {
                    let pg = Ghost(params@);
                    prepend_run(&mut runs, MsbtRun::ControlTag { group, kind, parameters: params });
                    proof {
                        assert(pg@ == after@.take(plen as int));
                    }
                    Ok(runs)
                }
            }
        }
    }
}

/// Decodes one entry's payload from `pos` to the end of `b`, exactly as
/// [`parse_runs`] describes, errors included.
#[verifier::rlimit(100)]
pub fn decode_runs(b: &Vec<u8>, pos: usize, bo: ByteOrder, enc: Encoding) -> (r: Result<
    Vec<MsbtRun>,
    MsbtError,
>)
    requires
        pos <= b@.len(),
    ensures
        match r {
            Ok(runs) => parse_runs(bo, enc, b@.skip(pos as int)) == Ok::<Seq<SpecRun>, MsbtError>(
                runs_view(runs@),
            ),
            Err(e) => parse_runs(bo, enc, b@.skip(pos as int)) == Err::<Seq<SpecRun>, MsbtError>(e),
        },
    decreases b@.len() - pos, 1int,
{
    let s = Ghost(b@.skip(pos as int));
    if pos == b.len() {
        let empty_runs: Vec<MsbtRun> = Vec::new();
        proof {
            assert(s@ =~= Seq::<u8>::empty());
            assert(runs_view(empty_runs@) =~= Seq::<SpecRun>::empty());
        }
        return Ok(empty_runs);
    }
    assert(s@.len() > 0);
    match read_unit(b, pos, bo, enc) {
        None => Err(MsbtError::UnexpectedEof),
        Some((u, p1)) => {
            if u == 0x0E {
                decode_tag(b, p1, bo, enc)
            } else if u == 0x0F {
                Err(MsbtError::InvalidControlTag)
            } else {
                match decode_runs(b, p1, bo, enc) {
                    Err(e) => Err(e),
                    Ok(mut runs) => {
                        prepend_text_unit(&mut runs, u);
                        Ok(runs)
                    }
                }
            }
        }
    }
}

} // verus!
