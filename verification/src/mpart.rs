//! Streaming decoder for `multipart/form-data` bodies.
//!
//! [`MPart`] walks a boundary-delimited byte stream and yields one [`Part`]
//! per call to [`MPart::next_part`]: field name, optional file name, optional
//! content type, and the exact content bytes.  The wire format it recognises:
//!
//! ```text
//! --BOUNDARY\r\n
//! Content-Disposition: form-data; name="FIELD"[; filename="FILE"]\r\n
//! [Content-Type: TYPE\r\n]
//! \r\n
//! <raw bytes>\r\n
//! --BOUNDARY\r\n            (more parts follow)
//! ...
//! --BOUNDARY--\r\n          (terminal)
//! ```
//!
//! Decoding is specified by [`spec_next_part`], a byte-exact model of one
//! step of the state machine; every executable function here is proved
//! against it.  The round-trip theorem [`lemma_decode_encode`] shows that a
//! body assembled by [`encode`] decodes back to exactly the parts it was
//! built from, even when a part's content contains boundary-like sequences.

use vstd::prelude::*;
use vstd::utf8::{valid_utf8, decode_utf8, encode_utf8};
use crate::strutil::{spec_find_byte, spec_starts_with, find_byte, starts_with_bytes, string_from_utf8};

verus! {

/// Why a decode failed.  Once any of these is returned the session is dead:
/// byte alignment cannot be re-established on a stream that cannot rewind.
#[derive(Clone, Copy, Debug, PartialEq, Eq, Structural)]
pub enum MPartError {
    /// The stream does not open with `--` and the boundary the caller
    /// supplied, or the boundary was empty; most commonly the caller failed
    /// to extract a boundary from the `Content-Type` header.
    NoBoundarySupplied,
    /// A header line is garbled: the `Content-Disposition` prefix is absent,
    /// a carriage return is not followed by a line feed, a name is not valid
    /// UTF-8, or the framing `\r\n` before a boundary is missing.
    MalformedHeaderLine,
    /// The source ran out while a boundary line or header was expected.
    UnexpectedEndOfStream,
    /// The source ran out mid-content, or `--BOUNDARY--` was not followed by
    /// the trailing `\r\n`.
    MissingTerminalMarker,
    /// The declared body length differs from what was consumed (reported by
    /// [`check_consumed`], never by the decoder itself).
    SizeMismatch,
}

/// One decoded field or file upload.
#[derive(Debug, PartialEq, Eq)]
pub struct Part {
    /// Value of an explicit `Content-Type` header line, if one was present.
    /// Callers treat `None` as `text/plain`, the form-data default.
    pub content_type: Option<String>,
    /// The `name="..."` attribute of the disposition line.
    pub content_name: String,
    /// Length of `content` in bytes.
    pub content_size: usize,
    /// The `filename="..."` attribute, present only for file uploads.
    pub content_filename: Option<String>,
    /// The exact octets between the blank header line and the next boundary,
    /// with the final `\r\n` that precedes the boundary stripped.
    pub content: Vec<u8>,
}

/// Wire-level model of one part: the byte sequences that stand between the
/// format's fixed delimiters.
#[verifier::ext_equal]
pub struct PartModel {
    /// Field name bytes (must decode as UTF-8 for the part to be yielded).
    pub name: Seq<u8>,
    /// File name bytes, when the disposition line carries `filename="..."`.
    pub filename: Option<Seq<u8>>,
    /// Content-type bytes, when a `Content-Type` line is present.
    pub ctype: Option<Seq<u8>>,
    /// The raw content octets.
    pub body: Seq<u8>,
}

/// The carriage-return/line-feed pair that terminates every header line.
pub open spec fn crlf() -> Seq<u8> {
    seq![13u8, 10u8]
}

/// The two `-` bytes that precede every boundary on the wire.
pub open spec fn dashes() -> Seq<u8> {
    seq![45u8, 45u8]
}

/// Fixed prefix of every disposition line, quote included.
pub open spec fn disp_prefix() -> Seq<u8> {
    encode_utf8("Content-Disposition: form-data; name=\""@)
}

/// Prefix of the optional file-name attribute, quote included.
pub open spec fn fname_prefix() -> Seq<u8> {
    encode_utf8("; filename=\""@)
}

/// Prefix of the optional content-type header line.
pub open spec fn ctype_prefix() -> Seq<u8> {
    encode_utf8("Content-Type: "@)
}

/// How an executable [`Part`] realises a wire-level [`PartModel`]: names
/// are the UTF-8 reading of the model's bytes, content is byte-identical.
/// A content-type value that is not valid UTF-8 collapses to the empty
/// string rather than failing the whole part.
pub open spec fn part_matches(p: Part, m: PartModel) -> bool {
    &&& p.content_name@ == decode_utf8(m.name)
    &&& match m.filename {
        Some(fb) => p.content_filename matches Some(f) && f@ == decode_utf8(fb),
        None => p.content_filename is None,
    }
    &&& match m.ctype {
        Some(tb) => p.content_type matches Some(t) && t@ == (if valid_utf8(tb) {
            decode_utf8(tb)
        } else {
            Seq::<char>::empty()
        }),
        None => p.content_type is None,
    }
    &&& p.content@ == m.body
    &&& p.content_size == m.body.len()
}

/// Result of scanning for one CRLF-terminated header line.
pub enum LineStep {
    /// A full line: its bytes (CRLF excluded) and how many input bytes it
    /// took (CRLF included).
    Line { bytes: Seq<u8>, used: int },
    /// A bare carriage return not followed by a line feed.
    Bad,
    /// The source ended before the line did.
    Eof,
}

/// One CRLF-terminated line off the front of `s`.
pub open spec fn spec_read_line(s: Seq<u8>) -> LineStep
    decreases s.len(),
{
    if s.len() == 0 {
        LineStep::Eof
    } else if s[0] == 13 {
        if s.len() < 2 {
            LineStep::Eof
        } else if s[1] == 10 {
            LineStep::Line { bytes: Seq::empty(), used: 2 }
        } else {
            LineStep::Bad
        }
    } else {
        match spec_read_line(s.skip(1)) {
            LineStep::Line { bytes, used } => LineStep::Line {
                bytes: seq![s[0]] + bytes,
                used: used + 1,
            },
            other => other,
        }
    }
}

/// Prepends already-scanned bytes to a line-scan outcome.
pub open spec fn line_prepend(pre: Seq<u8>, st: LineStep) -> LineStep {
    match st {
        LineStep::Line { bytes, used } => LineStep::Line {
            bytes: pre + bytes,
            used: used + pre.len(),
        },
        other => other,
    }
}

proof fn lemma_line_prepend_compose(a: Seq<u8>, b: Seq<u8>, st: LineStep)
    ensures
        line_prepend(a, line_prepend(b, st)) == line_prepend(a + b, st),
{
    match st {
        LineStep::Line { bytes, used } => {
            assert(a + (b + bytes) =~= (a + b) + bytes);
        },
        _ => {},
    }
}

/// Reading a line never consumes more than the input, and always at least
/// the line itself plus its CRLF.
pub proof fn lemma_read_line_used(s: Seq<u8>)
    ensures
        spec_read_line(s) matches LineStep::Line { bytes, used } ==> {
            &&& used == bytes.len() + 2
            &&& used <= s.len()
            &&& bytes == s.take(bytes.len() as int)
            &&& s.subrange(bytes.len() as int, bytes.len() as int + 2) == crlf()
        },
    decreases s.len(),
{
    if s.len() > 0 && s[0] != 13 {
        lemma_read_line_used(s.skip(1));
        match spec_read_line(s.skip(1)) {
            LineStep::Line { bytes, used } => {
                let whole = seq![s[0]] + bytes;
                assert(whole == s.take(whole.len() as int)) by {
                    assert(bytes == s.skip(1).take(bytes.len() as int));
                    assert(whole =~= s.take(whole.len() as int));
                }
                assert(s.subrange(whole.len() as int, whole.len() as int + 2) =~= s.skip(1).subrange(
                    bytes.len() as int,
                    bytes.len() as int + 2,
                ));
            },
            _ => {},
        }
    } else if s.len() >= 2 && s[0] == 13 && s[1] == 10 {
        assert(Seq::<u8>::empty() =~= s.take(0));
        assert(s.subrange(0, 2) =~= crlf());
    }
}

/// Length of the longest common prefix of `s` and `bnd`.
pub open spec fn match_len(s: Seq<u8>, bnd: Seq<u8>) -> int
    decreases bnd.len(),
{
    if bnd.len() == 0 || s.len() == 0 {
        0
    } else if s[0] == bnd[0] {
        1 + match_len(s.skip(1), bnd.skip(1))
    } else {
        0
    }
}

pub proof fn lemma_match_len_bounds(s: Seq<u8>, bnd: Seq<u8>)
    ensures
        0 <= match_len(s, bnd) <= bnd.len(),
        match_len(s, bnd) <= s.len(),
    decreases bnd.len(),
{
    if bnd.len() > 0 && s.len() > 0 && s[0] == bnd[0] {
        lemma_match_len_bounds(s.skip(1), bnd.skip(1));
    }
}

/// `match_len` is the `k` one finds by comparing byte by byte.
pub proof fn lemma_match_len_is(s: Seq<u8>, bnd: Seq<u8>, k: int)
    requires
        0 <= k <= bnd.len(),
        k <= s.len(),
        forall|j: int| 0 <= j < k ==> s[j] == bnd[j],
        k == bnd.len() || k == s.len() || s[k] != bnd[k],
    ensures
        match_len(s, bnd) == k,
    decreases k,
{
    if k == 0 {
        if bnd.len() > 0 && s.len() > 0 && s[0] == bnd[0] {
            assert(false);
        }
    } else {
        assert(s[0] == bnd[0]);
        let s1 = s.skip(1);
        let b1 = bnd.skip(1);
        assert forall|j: int| 0 <= j < k - 1 implies s1[j] == b1[j] by {
            assert(s1[j] == s[j + 1] && b1[j] == bnd[j + 1]);
        }
        if k < bnd.len() && k < s.len() {
            assert(s1[k - 1] == s[k] && b1[k - 1] == bnd[k]);
        }
        lemma_match_len_is(s1, b1, k - 1);
    }
}

/// Outcome of scanning one part's content up to its closing boundary.
pub enum ScanStep {
    /// A genuine boundary: the content before it (framing CRLF still
    /// included), whether the boundary was terminal, and the bytes consumed
    /// (content plus boundary plus its tail).
    Delim { content: Seq<u8>, terminal: bool, used: int },
    /// `--BOUNDARY--` reached but not followed by `\r\n`.
    BadTerminal,
    /// The source ended before a genuine boundary.
    Eof,
}

/// Prepends already-collected content bytes to a scan outcome.
pub open spec fn scan_prepend(pre: Seq<u8>, st: ScanStep) -> ScanStep {
    match st {
        ScanStep::Delim { content, terminal, used } => ScanStep::Delim {
            content: pre + content,
            terminal,
            used: used + pre.len(),
        },
        other => other,
    }
}

proof fn lemma_scan_prepend_compose(a: Seq<u8>, b: Seq<u8>, st: ScanStep)
    ensures
        scan_prepend(a, scan_prepend(b, st)) == scan_prepend(a + b, st),
{
    match st {
        ScanStep::Delim { content, terminal, used } => {
            assert(a + (b + content) =~= (a + b) + content);
        },
        _ => {},
    }
}

/// Scans `s` for the next genuine boundary, collecting content bytes.
///
/// A candidate starts at `--`; the following bytes are compared against the
/// boundary.  On a mismatch at offset `k`, the `2 + k` candidate bytes were
/// genuine content and scanning resumes at the byte that caused the
/// mismatch, so no byte is dropped, duplicated, or skipped.  A fully
/// matched boundary must be followed by `\r\n` (another part follows) or by
/// `--` and `\r\n` (terminal); anything else makes it a false candidate too.
pub open spec fn spec_scan_body(s: Seq<u8>, bnd: Seq<u8>) -> ScanStep
    decreases s.len(),
    when bnd.len() > 0
    via spec_scan_body_decreases
{
    if s.len() < 2 {
        ScanStep::Eof
    } else if s[0] == 45 && s[1] == 45 {
        let m = match_len(s.skip(2), bnd);
        if m == bnd.len() {
            let t = s.skip(2 + bnd.len() as int);
            if t.len() < 2 {
                ScanStep::Eof
            } else if t[0] == 13 && t[1] == 10 {
                ScanStep::Delim {
                    content: Seq::empty(),
                    terminal: false,
                    used: 2 + bnd.len() as int + 2,
                }
            } else if t[0] == 45 && t[1] == 45 {
                if t.len() < 4 {
                    ScanStep::Eof
                } else if t[2] == 13 && t[3] == 10 {
                    ScanStep::Delim {
                        content: Seq::empty(),
                        terminal: true,
                        used: 2 + bnd.len() as int + 4,
                    }
                } else {
                    ScanStep::BadTerminal
                }
            } else {
                scan_prepend(
                    s.take(2 + bnd.len() as int),
                    spec_scan_body(s.skip(2 + bnd.len() as int), bnd),
                )
            }
        } else if 2 + m == s.len() {
            ScanStep::Eof
        } else {
            scan_prepend(s.take(2 + m), spec_scan_body(s.skip(2 + m), bnd))
        }
    } else {
        scan_prepend(s.take(1), spec_scan_body(s.skip(1), bnd))
    }
}

#[via_fn]
proof fn spec_scan_body_decreases(s: Seq<u8>, bnd: Seq<u8>) {
    if s.len() >= 2 {
        lemma_match_len_bounds(s.skip(2), bnd);
    }
}

/// The `name` and optional `filename` of a `Content-Disposition` line.
///
/// The line must open with the fixed prefix; the name runs to the next `"`.
/// If what follows is `; filename="`, the file name runs to the next `"`.
/// A missing closing quote falls back to what the quotes did delimit: a
/// nameless disposition when the name quote is missing, no file name when
/// the filename quote is.
pub open spec fn spec_parse_disposition(line: Seq<u8>) -> Option<(Seq<u8>, Option<Seq<u8>>)> {
    if !spec_starts_with(line, disp_prefix()) {
        None
    } else {
        let rest = line.skip(disp_prefix().len() as int);
        match spec_find_byte(rest, 34) {
            None => Some((Seq::empty(), None)),
            Some(q) => {
                let name = rest.take(q);
                let after = rest.skip(q + 1);
                if after.len() > 0 && spec_starts_with(after, fname_prefix()) {
                    let frest = after.skip(fname_prefix().len() as int);
                    match spec_find_byte(frest, 34) {
                        None => Some((name, None)),
                        Some(fq) => Some((name, Some(frest.take(fq)))),
                    }
                } else {
                    Some((name, None))
                }
            },
        }
    }
}

/// The value bytes of a `Content-Type` line; a line without the prefix
/// counts as an empty content type.
pub open spec fn spec_parse_ctype(line: Seq<u8>) -> Seq<u8> {
    if spec_starts_with(line, ctype_prefix()) {
        line.skip(ctype_prefix().len() as int)
    } else {
        Seq::empty()
    }
}

/// One step of the part state machine.
pub enum DecodeStep {
    /// A part was decoded: its model, the bytes consumed producing it, and
    /// whether its closing boundary was terminal.
    Yield { part: PartModel, used: int, terminal: bool },
    /// The terminal boundary was reached with no part before it.
    Finished { used: int },
    /// Decoding failed; the session is dead.
    Fail { err: MPartError },
}

/// Shifts a step's consumed-byte count by bytes consumed earlier.
pub open spec fn step_add(ofs: int, st: DecodeStep) -> DecodeStep {
    match st {
        DecodeStep::Yield { part, used, terminal } => DecodeStep::Yield {
            part,
            used: used + ofs,
            terminal,
        },
        DecodeStep::Finished { used } => DecodeStep::Finished { used: used + ofs },
        DecodeStep::Fail { err } => DecodeStep::Fail { err },
    }
}

/// Scans one part's content and finalises it: the `\r\n` that always
/// precedes a genuine boundary is framing, not payload, and is stripped.
pub open spec fn spec_part_body(
    u: Seq<u8>,
    bnd: Seq<u8>,
    name: Seq<u8>,
    filename: Option<Seq<u8>>,
    ctype: Option<Seq<u8>>,
) -> DecodeStep {
    match spec_scan_body(u, bnd) {
        ScanStep::Eof => DecodeStep::Fail { err: MPartError::MissingTerminalMarker },
        ScanStep::BadTerminal => DecodeStep::Fail { err: MPartError::MissingTerminalMarker },
        ScanStep::Delim { content, terminal, used } => {
            if content.len() >= 2 && content[content.len() - 2] == 13 && content[content.len()
                - 1] == 10 {
                DecodeStep::Yield {
                    part: PartModel {
                        name,
                        filename,
                        ctype,
                        body: content.take(content.len() - 2),
                    },
                    used,
                    terminal,
                }
            } else {
                DecodeStep::Fail { err: MPartError::MalformedHeaderLine }
            }
        },
    }
}

/// Decodes one part from a header-line position: the disposition line, an
/// optional content-type line, the mandatory blank line, then the content.
/// Name and file name must be valid UTF-8.
pub open spec fn spec_part_headers(u: Seq<u8>, bnd: Seq<u8>) -> DecodeStep {
    match spec_read_line(u) {
        LineStep::Eof => DecodeStep::Fail { err: MPartError::UnexpectedEndOfStream },
        LineStep::Bad => DecodeStep::Fail { err: MPartError::MalformedHeaderLine },
        LineStep::Line { bytes: dline, used: n1 } => match spec_parse_disposition(dline) {
            None => DecodeStep::Fail { err: MPartError::MalformedHeaderLine },
            Some((name, filename)) => {
                let fname_ok = match filename {
                    Some(f) => valid_utf8(f),
                    None => true,
                };
                if !valid_utf8(name) || !fname_ok {
                    DecodeStep::Fail { err: MPartError::MalformedHeaderLine }
                } else {
                    let v = u.skip(n1);
                    match spec_read_line(v) {
                        LineStep::Eof => DecodeStep::Fail {
                            err: MPartError::UnexpectedEndOfStream,
                        },
                        LineStep::Bad => DecodeStep::Fail { err: MPartError::MalformedHeaderLine },
                        LineStep::Line { bytes: tline, used: n2 } => {
                            if tline.len() == 0 {
                                step_add(
                                    n1 + n2,
                                    spec_part_body(v.skip(n2), bnd, name, filename, None),
                                )
                            } else {
                                let w = v.skip(n2);
                                if w.len() < 2 {
                                    DecodeStep::Fail { err: MPartError::UnexpectedEndOfStream }
                                } else if w[0] == 13 && w[1] == 10 {
                                    step_add(
                                        n1 + n2 + 2,
                                        spec_part_body(
                                            w.skip(2),
                                            bnd,
                                            name,
                                            filename,
                                            Some(spec_parse_ctype(tline)),
                                        ),
                                    )
                                } else {
                                    DecodeStep::Fail { err: MPartError::MalformedHeaderLine }
                                }
                            }
                        },
                    }
                }
            },
        },
    }
}

/// One call of the decoder, from a not-yet-finished state: what it yields,
/// fails with, or finishes on, and how many bytes it consumes.
///
/// At the very start the literal `--BOUNDARY` is required as the first
/// bytes, followed by `\r\n` (parts follow) or `--\r\n` (a zero-part body).
/// A mismatch there is fatal, most commonly because no usable boundary was
/// supplied.
/// Outcome of the mandatory leading boundary line.
pub enum FirstStep {
    /// `--BOUNDARY\r\n`: parts follow, `used` bytes consumed.
    Parts { used: int },
    /// `--BOUNDARY--\r\n`: the body declares zero parts.
    Empty { used: int },
    /// The leading boundary is absent or truncated.
    Fail { err: MPartError },
}

/// Reads the leading `--BOUNDARY` line that must open the very first bytes
/// of the body, with no preceding CRLF.
pub open spec fn spec_first_boundary(s: Seq<u8>, bnd: Seq<u8>) -> FirstStep {
    if s.len() < 2 {
        FirstStep::Fail { err: MPartError::UnexpectedEndOfStream }
    } else if s[0] != 45 || s[1] != 45 {
        FirstStep::Fail { err: MPartError::NoBoundarySupplied }
    } else {
        let m = match_len(s.skip(2), bnd);
        if m < bnd.len() && 2 + m == s.len() {
            FirstStep::Fail { err: MPartError::UnexpectedEndOfStream }
        } else if m < bnd.len() {
            FirstStep::Fail { err: MPartError::NoBoundarySupplied }
        } else {
            let t = s.skip(2 + bnd.len() as int);
            if t.len() < 2 {
                FirstStep::Fail { err: MPartError::UnexpectedEndOfStream }
            } else if t[0] == 13 && t[1] == 10 {
                FirstStep::Parts { used: 2 + bnd.len() as int + 2 }
            } else if t[0] == 45 && t[1] == 45 {
                if t.len() < 4 {
                    FirstStep::Fail { err: MPartError::UnexpectedEndOfStream }
                } else if t[2] == 13 && t[3] == 10 {
                    FirstStep::Empty { used: 2 + bnd.len() as int + 4 }
                } else {
                    FirstStep::Fail { err: MPartError::MissingTerminalMarker }
                }
            } else {
                FirstStep::Fail { err: MPartError::NoBoundarySupplied }
            }
        }
    }
}

/// One call of the decoder, from a not-yet-finished state: what it yields,
/// fails with, or finishes on, and how many bytes it consumes.
///
/// At the very start the literal `--BOUNDARY` is required as the first
/// bytes, followed by `\r\n` (parts follow) or `--\r\n` (a zero-part body).
/// A mismatch there is fatal, most commonly because no usable boundary was
/// supplied.
pub open spec fn spec_next_part(s: Seq<u8>, bnd: Seq<u8>, first: bool) -> DecodeStep {
    if bnd.len() == 0 {
        DecodeStep::Fail { err: MPartError::NoBoundarySupplied }
    } else if first {
        match spec_first_boundary(s, bnd) {
            FirstStep::Parts { used } => step_add(used, spec_part_headers(s.skip(used), bnd)),
            FirstStep::Empty { used } => DecodeStep::Finished { used },
            FirstStep::Fail { err } => DecodeStep::Fail { err },
        }
    } else {
        spec_part_headers(s, bnd)
    }
}

proof fn lemma_step_add_zero(st: DecodeStep)
    ensures
        step_add(0, st) == st,
{
}

/// A header-line step yields a part or fails; only the leading boundary of
/// a zero-part body can finish the decode.
proof fn lemma_headers_not_finished(u: Seq<u8>, bnd: Seq<u8>)
    ensures
        !(spec_part_headers(u, bnd) is Finished),
{
    match spec_read_line(u) {
        LineStep::Line { bytes: dline, used: n1 } => {
            match spec_parse_disposition(dline) {
                Some((name, filename)) => {
                    let v = u.skip(n1);
                    match spec_read_line(v) {
                        LineStep::Line { bytes: tline, used: n2 } => {
                        },
                        _ => {},
                    }
                },
                None => {},
            }
        },
        _ => {},
    }
}

/// The streaming multipart decoder: a cursor over the body bytes, the
/// boundary, and the two flags of the part state machine.
pub struct MPart {
    input: Vec<u8>,
    pos: usize,
    boundary: Vec<u8>,
    first: bool,
    last: bool,
}

impl MPart {
    /// The whole byte stream this decoder was given.
    pub closed spec fn stream(self) -> Seq<u8> {
        self.input@
    }

    /// How many bytes of the stream have been consumed.
    pub closed spec fn position(self) -> int {
        self.pos as int
    }

    /// The boundary bytes (without the leading `--`).
    pub closed spec fn boundary_bytes(self) -> Seq<u8> {
        self.boundary@
    }

    /// True until the leading boundary line has been consumed.
    pub closed spec fn at_start(self) -> bool {
        self.first
    }

    /// True once the terminal `--BOUNDARY--` has been seen (or a caller is
    /// handed `Ok(None)` for a zero-part body); absorbing.
    pub closed spec fn finished(self) -> bool {
        self.last
    }

    /// The bytes not yet consumed.
    pub open spec fn remaining(self) -> Seq<u8> {
        self.stream().skip(self.position())
    }

    /// A decoder's cursor stays inside its stream.
    pub closed spec fn wf(self) -> bool {
        0 <= self.pos <= self.input@.len()
    }

    /// A decoder over `data` with the given boundary, positioned at the
    /// start; the leading `--BOUNDARY` is expected as the very first bytes.
    pub fn from(data: Vec<u8>, boundary: &[u8]) -> (r: MPart)
        ensures
            r.stream() == data@,
            r.position() == 0,
            r.boundary_bytes() == boundary@,
            r.at_start(),
            !r.finished(),
            r.wf(),
    {
        MPart {
            input: data,
            pos: 0,
            boundary: vstd::slice::slice_to_vec(boundary),
            first: true,
            last: false,
        }
    }

    /// Bytes consumed from the stream so far; after decoding, the caller
    /// compares this against the declared content length.
    pub fn consumed(&self) -> (r: usize)
        ensures
            r == self.position(),
    {
        self.pos
    }

    /// One CRLF-terminated header line, per [`spec_read_line`].
    #[verifier::loop_isolation(false)]
    fn read_line(&mut self) -> (r: Result<Vec<u8>, MPartError>)
        requires
            old(self).wf(),
        ensures
            final(self).wf(),
            final(self).stream() == old(self).stream(),
            final(self).boundary_bytes() == old(self).boundary_bytes(),
            final(self).at_start() == old(self).at_start(),
            final(self).finished() == old(self).finished(),
            match spec_read_line(old(self).remaining()) {
                LineStep::Line { bytes, used } => {
                    &&& r matches Ok(v) && v@ == bytes
                    &&& final(self).position() == old(self).position() + used
                },
                LineStep::Bad => r == Err::<Vec<u8>, MPartError>(MPartError::MalformedHeaderLine),
                LineStep::Eof => r == Err::<Vec<u8>, MPartError>(MPartError::UnexpectedEndOfStream),
            },
    {
        let ghost orig = *self;
        let mut acc: Vec<u8> = Vec::new();
        loop
            invariant
                self.wf(),
                self.input == orig.input,
                self.boundary == orig.boundary,
                self.first == orig.first,
                self.last == orig.last,
                self.position() == orig.position() + acc@.len(),
                spec_read_line(orig.remaining()) == line_prepend(
                    acc@,
                    spec_read_line(self.remaining()),
                ),
            decreases self.stream().len() - self.position(),
        {
            let ghost s = self.remaining();
            if self.pos >= self.input.len() {
                assert(s.len() == 0);
                return Err(MPartError::UnexpectedEndOfStream);
            }
            let c = self.input[self.pos];
            assert(c == s[0]);
            if c == 13 {
                if self.pos + 1 >= self.input.len() {
                    assert(s.len() < 2);
                    return Err(MPartError::UnexpectedEndOfStream);
                }
                let c2 = self.input[self.pos + 1];
                assert(c2 == s[1]);
                if c2 == 10 {
                    self.pos = self.pos + 2;
                    assert(acc@ + Seq::<u8>::empty() =~= acc@);
                    return Ok(acc);
                }
                return Err(MPartError::MalformedHeaderLine);
            }
            let ghost acc0 = acc@;
            acc.push(c);
            self.pos = self.pos + 1;
            proof {
                assert(s.skip(1) =~= self.remaining());
                lemma_line_prepend_compose(acc0, seq![c], spec_read_line(self.remaining()));
                assert(acc0 + seq![c] =~= acc@);
                match spec_read_line(self.remaining()) {
                    LineStep::Line { bytes, used } => {
                        assert(seq![c] + bytes =~= acc@.skip(acc0.len() as int) + bytes);
                        assert(line_prepend(seq![c], spec_read_line(s.skip(1)))
                            == spec_read_line(s));
                    },
                    _ => {},
                }
            }
        }
    }

    /// Collects content bytes up to the next genuine boundary, per
    /// [`spec_scan_body`]; the flag says whether that boundary was terminal.
    #[verifier::loop_isolation(false)]
    fn scan_body(&mut self) -> (r: Result<(Vec<u8>, bool), MPartError>)
        requires
            old(self).wf(),
            old(self).boundary_bytes().len() > 0,
        ensures
            final(self).wf(),
            final(self).stream() == old(self).stream(),
            final(self).boundary_bytes() == old(self).boundary_bytes(),
            final(self).at_start() == old(self).at_start(),
            final(self).finished() == old(self).finished(),
            match spec_scan_body(old(self).remaining(), old(self).boundary_bytes()) {
                ScanStep::Delim { content, terminal, used } => {
                    &&& r matches Ok(pr) && pr.0@ == content && pr.1 == terminal
                    &&& final(self).position() == old(self).position() + used
                },
                ScanStep::BadTerminal => r == Err::<(Vec<u8>, bool), MPartError>(
                    MPartError::MissingTerminalMarker,
                ),
                ScanStep::Eof => r == Err::<(Vec<u8>, bool), MPartError>(
                    MPartError::MissingTerminalMarker,
                ),
            },
    {
        let ghost orig = *self;
        let ghost bnd = self.boundary@;
        let mut content: Vec<u8> = Vec::new();
        loop
            invariant
                self.wf(),
                self.input == orig.input,
                self.boundary == orig.boundary,
                self.first == orig.first,
                self.last == orig.last,
                self.position() == orig.position() + content@.len(),
                spec_scan_body(orig.remaining(), bnd) == scan_prepend(
                    content@,
                    spec_scan_body(self.remaining(), bnd),
                ),
            decreases self.stream().len() - self.position(),
        {
            let ghost s = self.remaining();
            if self.input.len() - self.pos < 2 {
                assert(s.len() < 2);
                return Err(MPartError::MissingTerminalMarker);
            }
            let c0 = self.input[self.pos];
            let c1 = self.input[self.pos + 1];
            assert(c0 == s[0] && c1 == s[1]);
            if c0 == 45 && c1 == 45 {
                let start = self.pos;
                let k = boundary_match(&self.input, start + 2, &self.boundary);
                proof {
                    assert(s.skip(2) =~= self.stream().skip(start + 2));
                }
                if k == self.boundary.len() {
                    let after = start + 2 + k;
                    let ghost t = s.skip(2 + bnd.len() as int);
                    proof {
                        assert(t =~= self.stream().skip(after as int));
                    }
                    if self.input.len() - after < 2 {
                        assert(t.len() < 2);
                        return Err(MPartError::MissingTerminalMarker);
                    }
                    let t0 = self.input[after];
                    let t1 = self.input[after + 1];
                    assert(t0 == t[0] && t1 == t[1]);
                    if t0 == 13 && t1 == 10 {
                        self.pos = after + 2;
                        assert(content@ + Seq::<u8>::empty() =~= content@);
                        return Ok((content, false));
                    } else if t0 == 45 && t1 == 45 {
                        if self.input.len() - after < 4 {
                            assert(t.len() < 4);
                            return Err(MPartError::MissingTerminalMarker);
                        }
                        let t2 = self.input[after + 2];
                        let t3 = self.input[after + 3];
                        assert(t2 == t[2] && t3 == t[3]);
                        if t2 == 13 && t3 == 10 {
                            self.pos = after + 4;
                            assert(content@ + Seq::<u8>::empty() =~= content@);
                            return Ok((content, true));
                        }
                        return Err(MPartError::MissingTerminalMarker);
                    } else {
                        let ghost content0 = content@;
                        let sl = vstd::slice::slice_subrange(self.input.as_slice(), start, after);
                        content.extend_from_slice(sl);
                        self.pos = after;
                        proof {
                            assert(sl@ =~= s.take(2 + bnd.len() as int));
                            lemma_scan_prepend_compose(
                                content0,
                                sl@,
                                spec_scan_body(self.remaining(), bnd),
                            );
                            assert(s.skip(2 + bnd.len() as int) =~= self.remaining());
                            assert(content0 + sl@ =~= content@);
                        }
                    }
                } else {
                    if self.input.len() - (start + 2 + k) == 0 {
                        assert(2 + match_len(s.skip(2), bnd) == s.len());
                        return Err(MPartError::MissingTerminalMarker);
                    }
                    let ghost content0 = content@;
                    let sl = vstd::slice::slice_subrange(
                        self.input.as_slice(),
                        start,
                        start + 2 + k,
                    );
                    content.extend_from_slice(sl);
                    self.pos = start + 2 + k;
                    proof {
                        assert(sl@ =~= s.take(2 + k as int));
                        lemma_scan_prepend_compose(
                            content0,
                            sl@,
                            spec_scan_body(self.remaining(), bnd),
                        );
                        assert(s.skip(2 + k as int) =~= self.remaining());
                        assert(content0 + sl@ =~= content@);
                    }
                }
            } else {
                let ghost content0 = content@;
                content.push(c0);
                self.pos = self.pos + 1;
                proof {
                    assert(seq![c0] =~= s.take(1));
                    lemma_scan_prepend_compose(
                        content0,
                        seq![c0],
                        spec_scan_body(self.remaining(), bnd),
                    );
                    assert(s.skip(1) =~= self.remaining());
                    assert(content0 + seq![c0] =~= content@);
                }
            }
        }
    }

    /// The leading boundary line; `Ok(true)` means the body declared zero
    /// parts and the decoder is finished.
    fn first_boundary(&mut self) -> (r: Result<bool, MPartError>)
        requires
            old(self).wf(),
            old(self).boundary_bytes().len() > 0,
        ensures
            final(self).wf(),
            final(self).stream() == old(self).stream(),
            final(self).boundary_bytes() == old(self).boundary_bytes(),
            match spec_first_boundary(old(self).remaining(), old(self).boundary_bytes()) {
                FirstStep::Parts { used } => {
                    &&& r == Ok::<bool, MPartError>(false)
                    &&& final(self).position() == old(self).position() + used
                    &&& !final(self).at_start()
                    &&& final(self).finished() == old(self).finished()
                },
                FirstStep::Empty { used } => {
                    &&& r == Ok::<bool, MPartError>(true)
                    &&& final(self).position() == old(self).position() + used
                    &&& final(self).finished()
                },
                FirstStep::Fail { err } => r == Err::<bool, MPartError>(err),
            },
    {
        let ghost s0 = self.remaining();
        let ghost bnd = self.boundary@;
        if self.input.len() - self.pos < 2 {
            assert(s0.len() < 2);
            return Err(MPartError::UnexpectedEndOfStream);
        }
        let c0 = self.input[self.pos];
        let c1 = self.input[self.pos + 1];
        assert(c0 == s0[0] && c1 == s0[1]);
        if c0 != 45 || c1 != 45 {
            return Err(MPartError::NoBoundarySupplied);
        }
        let k = boundary_match(&self.input, self.pos + 2, &self.boundary);
        proof {
            assert(s0.skip(2) =~= self.stream().skip(self.pos as int + 2));
        }
        if k < self.boundary.len() {
            if self.pos + 2 + k == self.input.len() {
                return Err(MPartError::UnexpectedEndOfStream);
            }
            return Err(MPartError::NoBoundarySupplied);
        }
        let after = self.pos + 2 + k;
        let ghost t = s0.skip(2 + bnd.len() as int);
        proof {
            assert(t =~= self.stream().skip(after as int));
        }
        if self.input.len() - after < 2 {
            assert(t.len() < 2);
            return Err(MPartError::UnexpectedEndOfStream);
        }
        let t0 = self.input[after];
        let t1 = self.input[after + 1];
        assert(t0 == t[0] && t1 == t[1]);
        if t0 == 13 && t1 == 10 {
            self.pos = after + 2;
            self.first = false;
            Ok(false)
        } else if t0 == 45 && t1 == 45 {
            if self.input.len() - after < 4 {
                assert(t.len() < 4);
                return Err(MPartError::UnexpectedEndOfStream);
            }
            let t2 = self.input[after + 2];
            let t3 = self.input[after + 3];
            assert(t2 == t[2] && t3 == t[3]);
            if t2 == 13 && t3 == 10 {
                self.pos = after + 4;
                self.last = true;
                return Ok(true);
            }
            Err(MPartError::MissingTerminalMarker)
        } else {
            Err(MPartError::NoBoundarySupplied)
        }
    }

    /// One part from a header-line position, per [`spec_part_headers`]:
    /// disposition line, optional content-type line, blank line, content.
    #[verifier::rlimit(60)]
    fn decode_part(&mut self) -> (r: Result<Part, MPartError>)
        requires
            old(self).wf(),
            old(self).boundary_bytes().len() > 0,
            !old(self).finished(),
        ensures
            final(self).wf(),
            final(self).stream() == old(self).stream(),
            final(self).boundary_bytes() == old(self).boundary_bytes(),
            match spec_part_headers(old(self).remaining(), old(self).boundary_bytes()) {
                DecodeStep::Yield { part, used, terminal } => {
                    &&& r matches Ok(p) && part_matches(p, part)
                    &&& final(self).position() == old(self).position() + used
                    &&& final(self).finished() == terminal
                    &&& final(self).at_start() == old(self).at_start()
                },
                DecodeStep::Finished { used } => true,
                DecodeStep::Fail { err } => r == Err::<Part, MPartError>(err),
            },
    {
        let ghost u = self.remaining();
        let ghost bnd = self.boundary@;
        let ghost hdr = *self;
        let dline = match self.read_line() {
            Ok(l) => l,
            Err(e) => {
                return Err(e);
            },
        };
        let ghost n1 = self.position() - hdr.position();
        let disp = match parse_disposition(&dline) {
            Some(d) => d,
            None => {
                return Err(MPartError::MalformedHeaderLine);
            },
        };
        let (name_bytes, fname_bytes) = disp;
        let ghost name_model = name_bytes@;
        let name = match string_from_utf8(name_bytes) {
            Some(nm) => nm,
            None => {
                return Err(MPartError::MalformedHeaderLine);
            },
        };
        let ghost fname_model = match fname_bytes {
            Some(ref fb) => Some(fb@),
            None => None,
        };
        let filename = match fname_bytes {
            None => None,
            Some(fb) => match string_from_utf8(fb) {
                Some(f) => Some(f),
                None => {
                    return Err(MPartError::MalformedHeaderLine);
                },
            },
        };
        let ghost v = u.skip(n1);
        proof {
            lemma_read_line_used(u);
            assert(v =~= self.remaining());
        }
        let tline = match self.read_line() {
            Ok(l) => l,
            Err(e) => {
                return Err(e);
            },
        };
        let ghost n2 = self.position() - hdr.position() - n1;
        proof {
            lemma_read_line_used(v);
        }
        let ghost ctype_model: Option<Seq<u8>>;
        let ctype: Option<String>;
        if tline.len() == 0 {
            proof {
                ctype_model = None;
                assert(v.skip(n2) =~= self.remaining());
            }
            ctype = None;
        } else {
            let ghost w = v.skip(n2);
            proof {
                assert(w =~= self.remaining());
            }
            if self.input.len() - self.pos < 2 {
                assert(w.len() < 2);
                return Err(MPartError::UnexpectedEndOfStream);
            }
            let b0 = self.input[self.pos];
            let b1 = self.input[self.pos + 1];
            assert(b0 == w[0] && b1 == w[1]);
            if !(b0 == 13 && b1 == 10) {
                return Err(MPartError::MalformedHeaderLine);
            }
            ctype = Some(parse_ctype(&tline));
            self.pos = self.pos + 2;
            proof {
                ctype_model = Some(spec_parse_ctype(tline@));
                assert(w.skip(2) =~= self.remaining());
            }
        }
        let ghost body_state = *self;
        let ghost body_ofs = body_state.position() - hdr.position();
        proof {
            assert(spec_part_headers(u, bnd) == step_add(
                body_ofs,
                spec_part_body(body_state.remaining(), bnd, name_model, fname_model, ctype_model),
            ));
        }
        let (mut content, terminal) = match self.scan_body() {
            Ok(p) => p,
            Err(e) => {
                return Err(e);
            },
        };
        if content.len() < 2 {
            return Err(MPartError::MalformedHeaderLine);
        }
        let e2 = content[content.len() - 2];
        let e1 = content[content.len() - 1];
        if !(e2 == 13 && e1 == 10) {
            return Err(MPartError::MalformedHeaderLine);
        }
        let ghost raw = content@;
        content.truncate(content.len() - 2);
        assert(content@ == raw.take(raw.len() - 2));
        if terminal {
            self.last = true;
        }
        let size = content.len();
        Ok(
            Part {
                content_type: ctype,
                content_name: name,
                content_size: size,
                content_filename: filename,
                content,
            },
        )
    }

    /// The next part of the body, `Ok(None)` once the terminal boundary has
    /// been passed, or the error that killed the decode — exactly as
    /// [`spec_next_part`] reads the remaining bytes.
    ///
    /// The sequence of parts is lazy, single-pass and non-restartable: the
    /// terminal state is absorbing, and an error is fatal for the rest of
    /// the stream — the decoder finishes, and every later call yields
    /// `Ok(None)`, since byte alignment is lost for good.
    pub fn next_part(&mut self) -> (r: Result<Option<Part>, MPartError>)
        requires
            old(self).wf(),
        ensures
            final(self).wf(),
            final(self).stream() == old(self).stream(),
            final(self).boundary_bytes() == old(self).boundary_bytes(),
            old(self).finished() ==> r == Ok::<Option<Part>, MPartError>(None) && *final(self)
                == *old(self),
            !old(self).finished() ==> match spec_next_part(
                old(self).remaining(),
                old(self).boundary_bytes(),
                old(self).at_start(),
            ) {
                DecodeStep::Yield { part, used, terminal } => {
                    &&& r matches Ok(op) && op matches Some(p) && part_matches(p, part)
                    &&& final(self).position() == old(self).position() + used
                    &&& final(self).finished() == terminal
                    &&& !final(self).at_start()
                },
                DecodeStep::Finished { used } => {
                    &&& r == Ok::<Option<Part>, MPartError>(None)
                    &&& final(self).finished()
                    &&& final(self).position() == old(self).position() + used
                },
                DecodeStep::Fail { err } => {
                    &&& r == Err::<Option<Part>, MPartError>(err)
                    &&& final(self).finished()
                },
            },
    {
        if self.last {
            return Ok(None);
        }
        if self.boundary.len() == 0 {
            self.last = true;
            return Err(MPartError::NoBoundarySupplied);
        }
        let ghost s0 = self.remaining();
        let ghost bnd = self.boundary@;
        let ghost first0 = self.first;
        if self.first {
            match self.first_boundary() {
                Err(e) => {
                    self.last = true;
                    return Err(e);
                },
                Ok(true) => {
                    return Ok(None);
                },
                Ok(false) => {},
            }
            proof {
                match spec_first_boundary(s0, bnd) {
                    FirstStep::Parts { used } => {
                        assert(self.remaining() =~= s0.skip(used));
                    },
                    _ => {
                        assert(false);
                    },
                }
            }
        }
        let ghost hdr = *self;
        let ghost hofs = hdr.position() - old(self).position();
        proof {
            lemma_headers_not_finished(hdr.remaining(), bnd);
            if !first0 {
                lemma_step_add_zero(spec_part_headers(hdr.remaining(), bnd));
            }
            assert(spec_next_part(s0, bnd, first0) == step_add(
                hofs,
                spec_part_headers(hdr.remaining(), bnd),
            ));
        }
        match self.decode_part() {
            Ok(p) => Ok(Some(p)),
            Err(e) => {
                self.last = true;
                Err(e)
            },
        }
    }
}

/// Splits a disposition line per [`spec_parse_disposition`].
fn parse_disposition(line: &Vec<u8>) -> (r: Option<(Vec<u8>, Option<Vec<u8>>)>)
    ensures
        match spec_parse_disposition(line@) {
            None => r is None,
            Some((n, f)) => r matches Some(p) && p.0@ == n && (match f {
                Some(fb) => p.1 matches Some(fv) && fv@ == fb,
                None => p.1 is None,
            }),
        },
{
    let pre = "Content-Disposition: form-data; name=\"".as_bytes();
    assert(pre@ == disp_prefix());
    if !starts_with_bytes(line.as_slice(), pre) {
        return None;
    }
    let rest = vstd::slice::slice_subrange(line.as_slice(), pre.len(), line.len());
    assert(rest@ =~= line@.skip(disp_prefix().len() as int));
    match find_byte(rest, 34) {
        None => Some((Vec::new(), None)),
        Some(q) => {
            proof {
                crate::strutil::lemma_find_byte(rest@, 34);
            }
            let name = vstd::slice::slice_to_vec(vstd::slice::slice_subrange(rest, 0, q));
            assert(name@ =~= rest@.take(q as int));
            let after = vstd::slice::slice_subrange(rest, q + 1, rest.len());
            assert(after@ =~= rest@.skip(q as int + 1));
            let fpre = "; filename=\"".as_bytes();
            assert(fpre@ == fname_prefix());
            if after.len() > 0 && starts_with_bytes(after, fpre) {
                let frest = vstd::slice::slice_subrange(after, fpre.len(), after.len());
                assert(frest@ =~= after@.skip(fname_prefix().len() as int));
                match find_byte(frest, 34) {
                    None => Some((name, None)),
                    Some(fq) => {
                        proof {
                            crate::strutil::lemma_find_byte(frest@, 34);
                        }
                        let fname = vstd::slice::slice_to_vec(
                            vstd::slice::slice_subrange(frest, 0, fq),
                        );
                        assert(fname@ =~= frest@.take(fq as int));
                        Some((name, Some(fname)))
                    },
                }
            } else {
                Some((name, None))
            }
        },
    }
}

/// Reads a content-type line's value per [`spec_parse_ctype`]; a value that
/// is not valid UTF-8 collapses to the empty string.
fn parse_ctype(line: &Vec<u8>) -> (r: String)
    ensures
        r@ == (if valid_utf8(spec_parse_ctype(line@)) {
            decode_utf8(spec_parse_ctype(line@))
        } else {
            Seq::<char>::empty()
        }),
{
    let pre = "Content-Type: ".as_bytes();
    assert(pre@ == ctype_prefix());
    if starts_with_bytes(line.as_slice(), pre) {
        let value = vstd::slice::slice_to_vec(
            vstd::slice::slice_subrange(line.as_slice(), pre.len(), line.len()),
        );
        assert(value@ =~= line@.skip(ctype_prefix().len() as int));
        match string_from_utf8(value) {
            Some(s) => s,
            None => String::new(),
        }
    } else {
        String::new()
    }
}

/// Longest run of bytes at `input[from..]` that agrees with the boundary.
#[verifier::loop_isolation(false)]
fn boundary_match(input: &Vec<u8>, from: usize, bnd: &Vec<u8>) -> (k: usize)
    requires
        from <= input@.len(),
    ensures
        k == match_len(input@.skip(from as int), bnd@),
        k <= bnd@.len(),
        from + k <= input@.len(),
{
    let mut i: usize = from;
    while i < input.len() && i - from < bnd.len() && input[i] == bnd[i - from]
        invariant
            from <= i <= input@.len(),
            i - from <= bnd@.len(),
            forall|j: int| 0 <= j < i - from ==> input@[from + j] == bnd@[j],
        decreases input@.len() - i,
    {
        i = i + 1;
    }
    let k = i - from;
    proof {
        let s = input@.skip(from as int);
        assert forall|j: int| 0 <= j < k implies s[j] == bnd@[j] by {
            assert(s[j] == input@[from + j]);
        }
        if k < bnd@.len() && from + k < input@.len() {
            assert(s[k as int] == input@[from + k]);
        }
        lemma_match_len_is(s, bnd@, k as int);
    }
    k
}

} // verus!

verus! {

// ---------------------------------------------------------------------
// The wire format, written forwards: what a body holding given parts
// looks like, and the theorem that decoding gives those parts back.
// ---------------------------------------------------------------------

/// The disposition line a part model stands behind, quote-delimited.
pub open spec fn disp_line(m: PartModel) -> Seq<u8> {
    disp_prefix() + m.name + seq![34u8] + (match m.filename {
        Some(f) => fname_prefix() + f + seq![34u8],
        None => Seq::<u8>::empty(),
    })
}

/// The content-type line (with its CRLF) when the model carries one.
pub open spec fn ctype_lines(m: PartModel) -> Seq<u8> {
    match m.ctype {
        Some(t) => ctype_prefix() + t + crlf(),
        None => Seq::<u8>::empty(),
    }
}

/// One part as encoded on the wire, up to and including the `--BOUNDARY`
/// that closes it.
pub open spec fn part_seg(m: PartModel, bnd: Seq<u8>) -> Seq<u8> {
    disp_line(m) + crlf() + ctype_lines(m) + crlf() + m.body + crlf() + dashes() + bnd
}

/// What follows a just-consumed `--BOUNDARY` when `ps` parts remain:
/// `--\r\n` when none, else `\r\n`, the next part, and so on.
pub open spec fn enc_tail(ps: Seq<PartModel>, bnd: Seq<u8>) -> Seq<u8>
    decreases ps.len(),
{
    if ps.len() == 0 {
        dashes() + crlf()
    } else {
        crlf() + part_seg(ps[0], bnd) + enc_tail(ps.skip(1), bnd)
    }
}

/// The stream seen from a header-line position with `ps` parts remaining.
pub open spec fn enc_mid(ps: Seq<PartModel>, bnd: Seq<u8>) -> Seq<u8>
    recommends
        ps.len() > 0,
{
    part_seg(ps[0], bnd) + enc_tail(ps.skip(1), bnd)
}

/// A full multipart body holding exactly the given parts.
pub open spec fn encode(ps: Seq<PartModel>, bnd: Seq<u8>) -> Seq<u8> {
    dashes() + bnd + enc_tail(ps, bnd)
}

/// A boundary the wire format can carry: nonempty, free of CR and LF.
pub open spec fn wf_boundary(bnd: Seq<u8>) -> bool {
    &&& bnd.len() > 0
    &&& forall|i: int| 0 <= i < bnd.len() ==> bnd[i] != 13 && bnd[i] != 10
}

/// A quoted attribute value: UTF-8, and free of the quote that would end
/// it early and of the CR that would break its line.
pub open spec fn attr_wf(v: Seq<u8>) -> bool {
    &&& valid_utf8(v)
    &&& forall|i: int| 0 <= i < v.len() ==> v[i] != 34 && v[i] != 13
}

/// A live delimiter at position `i` of `s`: `--`, the boundary, and then
/// CRLF (more parts) or `--` (terminal).
pub open spec fn delimiter_at(s: Seq<u8>, bnd: Seq<u8>, i: int) -> bool {
    &&& 0 <= i
    &&& i + 2 + bnd.len() + 2 <= s.len()
    &&& s.subrange(i, i + 2) == dashes()
    &&& s.subrange(i + 2, i + 2 + bnd.len() as int) == bnd
    &&& {
        let tail2 = s.subrange(i + 2 + bnd.len() as int, i + 2 + bnd.len() as int + 2);
        tail2 == crlf() || tail2 == dashes()
    }
}

/// Content the scanner hands back intact: it may hold boundary-like byte
/// runs, but no live delimiter before the genuine one that closes it.
pub open spec fn body_wf(body: Seq<u8>, bnd: Seq<u8>) -> bool {
    forall|i: int|
        0 <= i < body.len() + 2 ==> !#[trigger] delimiter_at(body + crlf() + dashes() + bnd, bnd, i)
}

/// A part the wire format can carry faithfully.
pub open spec fn part_wf(m: PartModel, bnd: Seq<u8>) -> bool {
    &&& attr_wf(m.name)
    &&& match m.filename {
        Some(f) => attr_wf(f),
        None => true,
    }
    &&& match m.ctype {
        Some(t) => forall|i: int| 0 <= i < t.len() ==> t[i] != 13,
        None => true,
    }
    &&& body_wf(m.body, bnd)
}

/// Every part a decoder yields when driven to the end, or `None` if the
/// decode fails.
pub open spec fn spec_decode_all(s: Seq<u8>, bnd: Seq<u8>, first: bool) -> Option<Seq<PartModel>>
    decreases s.len(),
{
    match spec_next_part(s, bnd, first) {
        DecodeStep::Finished { used } => Some(Seq::<PartModel>::empty()),
        DecodeStep::Yield { part, used, terminal } => {
            if terminal {
                Some(seq![part])
            } else if 0 < used <= s.len() {
                match spec_decode_all(s.skip(used), bnd, false) {
                    Some(rest) => Some(seq![part] + rest),
                    None => None,
                }
            } else {
                None
            }
        },
        DecodeStep::Fail { err } => None,
    }
}

/// The fixed header prefixes are ASCII with no CR or LF in them.
proof fn lemma_prefix_bytes()
    ensures
        disp_prefix().len() == 38,
        fname_prefix().len() == 12,
        ctype_prefix().len() == 14,
        forall|i: int| 0 <= i < disp_prefix().len() ==> disp_prefix()[i] != 13
            && disp_prefix()[i] != 10,
        forall|i: int| 0 <= i < fname_prefix().len() ==> fname_prefix()[i] != 13
            && fname_prefix()[i] != 10,
        forall|i: int| 0 <= i < ctype_prefix().len() ==> ctype_prefix()[i] != 13
            && ctype_prefix()[i] != 10,
{
    reveal_strlit("Content-Disposition: form-data; name=\"");
    reveal_strlit("; filename=\"");
    reveal_strlit("Content-Type: ");
    let d = "Content-Disposition: form-data; name=\""@;
    let f = "; filename=\""@;
    let c = "Content-Type: "@;
    assert(vstd::utf8::is_ascii_chars(d));
    assert(vstd::utf8::is_ascii_chars(f));
    assert(vstd::utf8::is_ascii_chars(c));
    vstd::utf8::is_ascii_chars_encode_utf8(d);
    vstd::utf8::is_ascii_chars_encode_utf8(f);
    vstd::utf8::is_ascii_chars_encode_utf8(c);
}

/// Reading a line off `line + CRLF + rest` yields `line` when the line
/// itself holds no CR.
proof fn lemma_read_line_encoded(line: Seq<u8>, rest: Seq<u8>)
    requires
        forall|i: int| 0 <= i < line.len() ==> line[i] != 13,
    ensures
        spec_read_line(line + crlf() + rest) == (LineStep::Line {
            bytes: line,
            used: line.len() as int + 2,
        }),
    decreases line.len(),
{
    let s = line + crlf() + rest;
    if line.len() == 0 {
        assert(s[0] == 13 && s[1] == 10);
        assert(line + Seq::<u8>::empty() =~= line);
    } else {
        assert(s[0] == line[0]);
        lemma_read_line_encoded(line.skip(1), rest);
        assert(s.skip(1) =~= line.skip(1) + crlf() + rest);
        assert(seq![s[0]] + line.skip(1) =~= line);
    }
}

/// A sequence that continues with the boundary matches it fully.
proof fn lemma_match_len_self(b: Seq<u8>, y: Seq<u8>)
    ensures
        match_len(b + y, b) == b.len(),
    decreases b.len(),
{
    if b.len() > 0 {
        assert((b + y)[0] == b[0]);
        lemma_match_len_self(b.skip(1), y);
        assert((b + y).skip(1) =~= b.skip(1) + y);
    }
}

/// Up to the match length, the scanned bytes equal the boundary's.
proof fn lemma_match_len_agree(s: Seq<u8>, bnd: Seq<u8>)
    ensures
        forall|j: int| 0 <= j < match_len(s, bnd) ==> s[j] == bnd[j],
    decreases bnd.len(),
{
    lemma_match_len_bounds(s, bnd);
    if bnd.len() > 0 && s.len() > 0 && s[0] == bnd[0] {
        lemma_match_len_agree(s.skip(1), bnd.skip(1));
        assert forall|j: int| 0 <= j < match_len(s, bnd) implies s[j] == bnd[j] by {
            if j > 0 {
                assert(s.skip(1)[j - 1] == s[j]);
                assert(bnd.skip(1)[j - 1] == bnd[j]);
            }
        }
    }
}

/// Delimiters shift with the stream.
proof fn lemma_delimiter_shift(s: Seq<u8>, bnd: Seq<u8>, d: int, i: int)
    requires
        0 <= d <= s.len(),
        0 <= i,
        delimiter_at(s.skip(d), bnd, i),
    ensures
        delimiter_at(s, bnd, i + d),
{
    let x = s.skip(d);
    let blen = bnd.len() as int;
    assert(x.subrange(i, i + 2) =~= s.subrange(d + i, d + i + 2));
    assert(x.subrange(i + 2, i + 2 + blen) =~= s.subrange(d + i + 2, d + i + 2 + blen));
    assert(x.subrange(i + 2 + blen, i + 2 + blen + 2) =~= s.subrange(
        d + i + 2 + blen,
        d + i + 2 + blen + 2,
    ));
}

/// Dropping a clean content prefix keeps the rest clean.
proof fn lemma_body_wf_shift(body: Seq<u8>, bnd: Seq<u8>, d: int)
    requires
        0 <= d <= body.len(),
        body_wf(body, bnd),
    ensures
        body_wf(body.skip(d), bnd),
{
    let ws = body + crlf() + dashes() + bnd;
    let b1 = body.skip(d);
    assert(b1 + crlf() + dashes() + bnd =~= ws.skip(d));
    assert forall|i: int| 0 <= i < b1.len() + 2 implies !delimiter_at(
        b1 + crlf() + dashes() + bnd,
        bnd,
        i,
    ) by {
        if delimiter_at(b1 + crlf() + dashes() + bnd, bnd, i) {
            assert(delimiter_at(ws.skip(d), bnd, i));
            lemma_delimiter_shift(ws, bnd, d, i);
        }
    }
}

/// Scanning from the framing CRLF of an empty content straight into the
/// genuine boundary finds it.
#[verifier::rlimit(100)]
proof fn lemma_scan_encoded_empty(bnd: Seq<u8>, sep: Seq<u8>, terminal: bool)
    requires
        wf_boundary(bnd),
        !terminal ==> sep.len() >= 2 && sep.subrange(0, 2) == crlf(),
        terminal ==> sep.len() >= 4 && sep.subrange(0, 2) == dashes() && sep.subrange(2, 4)
            == crlf(),
    ensures
        spec_scan_body(crlf() + dashes() + bnd + sep, bnd) == (ScanStep::Delim {
            content: crlf(),
            terminal,
            used: 4 + bnd.len() + (if terminal { 4int } else { 2int }),
        }),
{
    let blen = bnd.len() as int;
    let s = crlf() + dashes() + bnd + sep;
    let s1 = s.skip(1);
    let s2 = s.skip(2);
    assert(s[0] == 13 && s[1] == 10);
    assert(s2 =~= dashes() + bnd + sep);
    assert(s2[0] == 45 && s2[1] == 45);
    assert(s2.skip(2) =~= bnd + sep);
    lemma_match_len_self(bnd, sep);
    assert(match_len(s2.skip(2), bnd) == blen);
    let t = s2.skip(2 + blen);
    assert(t =~= sep);
    if terminal {
        assert(t[0] == 45 && t[1] == 45 && t[2] == 13 && t[3] == 10);
        assert(spec_scan_body(s2, bnd) == (ScanStep::Delim {
            content: Seq::<u8>::empty(),
            terminal: true,
            used: 2 + blen + 4,
        }));
    } else {
        assert(t[0] == 13 && t[1] == 10);
        assert(spec_scan_body(s2, bnd) == (ScanStep::Delim {
            content: Seq::<u8>::empty(),
            terminal: false,
            used: 2 + blen + 2,
        }));
    }
    assert(s1.skip(1) =~= s2);
    assert(s1[0] == 10);
    assert(spec_scan_body(s1, bnd) == scan_prepend(s1.take(1), spec_scan_body(s2, bnd)));
    assert(spec_scan_body(s, bnd) == scan_prepend(s.take(1), spec_scan_body(s1, bnd)));
    assert(s.take(1) + (s1.take(1) + Seq::<u8>::empty()) =~= crlf());
}

/// A fully matched candidate whose next two bytes are CRLF or `--` is a
/// live delimiter right where it stands.
#[verifier::rlimit(100)]
proof fn lemma_live_candidate_is_delimiter(body: Seq<u8>, bnd: Seq<u8>, sep: Seq<u8>)
    requires
        wf_boundary(bnd),
        body.len() >= 2,
        ({
            let s = body + crlf() + dashes() + bnd + sep;
            let blen = bnd.len() as int;
            &&& s[0] == 45 && s[1] == 45
            &&& match_len(s.skip(2), bnd) == blen
            &&& 2 + blen <= body.len()
            &&& ((s[2 + blen] == 13 && s[3 + blen] == 10) || (s[2 + blen] == 45 && s[3 + blen]
                == 45))
        }),
    ensures
        delimiter_at(body + crlf() + dashes() + bnd, bnd, 0),
{
    let s = body + crlf() + dashes() + bnd + sep;
    let ws = body + crlf() + dashes() + bnd;
    let n = body.len() as int;
    let blen = bnd.len() as int;
    lemma_match_len_agree(s.skip(2), bnd);
    assert(s.subrange(0, 2) =~= dashes());
    assert forall|j: int| 0 <= j < blen implies s.subrange(2, 2 + blen)[j] == bnd[j] by {
        assert(s.subrange(2, 2 + blen)[j] == s.skip(2)[j]);
    }
    assert(s.subrange(2, 2 + blen) =~= bnd);
    let tail2 = s.subrange(2 + blen, 2 + blen + 2);
    assert(tail2[0] == s[2 + blen] && tail2[1] == s[3 + blen]);
    if s[2 + blen] == 13 {
        assert(tail2 =~= crlf());
    } else {
        assert(tail2 =~= dashes());
    }
    assert(delimiter_at(s, bnd, 0));
    assert(ws =~= s.take(n + 4 + blen));
    assert(ws.subrange(0, 2) =~= s.subrange(0, 2));
    assert(ws.subrange(2, 2 + blen) =~= s.subrange(2, 2 + blen));
    assert(ws.subrange(2 + blen, 2 + blen + 2) =~= s.subrange(2 + blen, 2 + blen + 2));
    assert(delimiter_at(ws, bnd, 0));
}

/// The heart of resynchronization: scanning a well-formed part's content
/// followed by its genuine boundary returns that content exactly, however
/// many boundary-like runs — or a stray `-` right before the boundary —
/// it holds.
#[verifier::rlimit(100)]
pub proof fn lemma_scan_encoded(body: Seq<u8>, bnd: Seq<u8>, sep: Seq<u8>, terminal: bool)
    requires
        wf_boundary(bnd),
        body_wf(body, bnd),
        !terminal ==> sep.len() >= 2 && sep.subrange(0, 2) == crlf(),
        terminal ==> sep.len() >= 4 && sep.subrange(0, 2) == dashes() && sep.subrange(2, 4)
            == crlf(),
    ensures
        spec_scan_body(body + crlf() + dashes() + bnd + sep, bnd) == (ScanStep::Delim {
            content: body + crlf(),
            terminal,
            used: body.len() + 4 + bnd.len() + (if terminal { 4int } else { 2int }),
        }),
    decreases body.len(),
{
    let s = body + crlf() + dashes() + bnd + sep;
    let n = body.len() as int;
    let blen = bnd.len() as int;
    assert(s.len() == n + 4 + blen + sep.len());
    if n == 0 {
        lemma_scan_encoded_empty(bnd, sep, terminal);
        assert(s =~= crlf() + dashes() + bnd + sep);
        assert(body + crlf() =~= crlf());
    } else {
        assert(s[0] == body[0]);
        if s[0] == 45 && s[1] == 45 {
            assert(n != 1) by {
                if n == 1 {
                    assert(s[1] == 13);
                }
            }
            let m = match_len(s.skip(2), bnd);
            lemma_match_len_bounds(s.skip(2), bnd);
            lemma_match_len_agree(s.skip(2), bnd);
            if m == blen {
                // the matched bytes cannot reach into the framing CRLF
                if 2 + blen > n {
                    assert(s.skip(2)[n - 2] == bnd[n - 2]);
                    assert(s[n] == 13);
                    assert(false);
                }
                let t = s.skip(2 + blen);
                assert(t.len() >= 2);
                assert(t[0] == s[2 + blen] && t[1] == s[3 + blen]);
                if (t[0] == 13 && t[1] == 10) || (t[0] == 45 && t[1] == 45) {
                    // a live delimiter inside the content: body_wf forbids it
                    lemma_live_candidate_is_delimiter(body, bnd, sep);
                    assert(false);
                } else {
                    // boundary-like run, but no delimiter: genuine content
                    let d = 2 + blen;
                    let b1 = body.skip(d);
                    assert(s.skip(d) =~= b1 + crlf() + dashes() + bnd + sep);
                    lemma_body_wf_shift(body, bnd, d);
                    lemma_scan_encoded(b1, bnd, sep, terminal);
                    assert(spec_scan_body(s, bnd) == scan_prepend(
                        s.take(d),
                        spec_scan_body(s.skip(d), bnd),
                    ));
                    assert(s.take(d) + (b1 + crlf()) =~= body + crlf());
                }
            } else {
                // mismatch at m: those bytes were content; resume at the
                // byte that caused it
                if 2 + m > n {
                    assert(s.skip(2)[n - 2] == bnd[n - 2]);
                    assert(s[n] == 13);
                    assert(false);
                }
                assert(2 + m < s.len());
                let d = 2 + m;
                let b1 = body.skip(d);
                assert(s.skip(d) =~= b1 + crlf() + dashes() + bnd + sep);
                lemma_body_wf_shift(body, bnd, d);
                lemma_scan_encoded(b1, bnd, sep, terminal);
                assert(spec_scan_body(s, bnd) == scan_prepend(
                    s.take(d),
                    spec_scan_body(s.skip(d), bnd),
                ));
                assert(s.take(d) + (b1 + crlf()) =~= body + crlf());
            }
        } else {
            // plain content byte: one step, then the rest of the body
            let b1 = body.skip(1);
            assert(s.skip(1) =~= b1 + crlf() + dashes() + bnd + sep);
            lemma_body_wf_shift(body, bnd, 1);
            lemma_scan_encoded(b1, bnd, sep, terminal);
            assert(spec_scan_body(s, bnd) == scan_prepend(
                s.take(1),
                spec_scan_body(s.skip(1), bnd),
            ));
            assert(s.take(1) + (b1 + crlf()) =~= body + crlf());
        }
    }
}

/// A disposition line built from a well-formed model parses back to its
/// name and file name.
proof fn lemma_parse_disposition_encoded(m: PartModel)
    requires
        attr_wf(m.name),
        m.filename matches Some(f) ==> attr_wf(f),
    ensures
        spec_parse_disposition(disp_line(m)) == Some((m.name, m.filename)),
{
    lemma_prefix_bytes();
    let line = disp_line(m);
    let pre = disp_prefix();
    let nlen = m.name.len() as int;
    assert(spec_starts_with(line, pre)) by {
        assert(line.take(pre.len() as int) =~= pre);
    }
    let rest = line.skip(pre.len() as int);
    crate::strutil::lemma_find_byte(rest, 34);
    match m.filename {
        None => {
            assert(rest =~= m.name + seq![34u8]);
            assert(rest[nlen] == 34);
            match spec_find_byte(rest, 34) {
                None => {
                    assert(false);
                },
                Some(q) => {
                    if q < nlen {
                        assert(rest[q] == m.name[q]);
                        assert(false);
                    }
                    if q > nlen {
                        assert(rest[nlen] != 34);
                        assert(false);
                    }
                    assert(rest.take(q) =~= m.name);
                    let after = rest.skip(q + 1);
                    assert(after =~= Seq::<u8>::empty());
                },
            }
        },
        Some(f) => {
            let fp = fname_prefix();
            assert(rest =~= m.name + seq![34u8] + (fp + f + seq![34u8]));
            assert(rest[nlen] == 34);
            match spec_find_byte(rest, 34) {
                None => {
                    assert(false);
                },
                Some(q) => {
                    if q < nlen {
                        assert(rest[q] == m.name[q]);
                        assert(false);
                    }
                    if q > nlen {
                        assert(rest[nlen] != 34);
                        assert(false);
                    }
                    assert(rest.take(q) =~= m.name);
                    let after = rest.skip(q + 1);
                    assert(after =~= fp + f + seq![34u8]);
                    assert(after.len() > 0);
                    assert(spec_starts_with(after, fp)) by {
                        assert(after.take(fp.len() as int) =~= fp);
                    }
                    let frest = after.skip(fp.len() as int);
                    assert(frest =~= f + seq![34u8]);
                    crate::strutil::lemma_find_byte(frest, 34);
                    let flen = f.len() as int;
                    assert(frest[flen] == 34);
                    match spec_find_byte(frest, 34) {
                        None => {
                            assert(false);
                        },
                        Some(fq) => {
                            if fq < flen {
                                assert(frest[fq] == f[fq]);
                                assert(false);
                            }
                            if fq > flen {
                                assert(frest[flen] != 34);
                                assert(false);
                            }
                            assert(frest.take(fq) =~= f);
                        },
                    }
                },
            }
        },
    }
}

/// The disposition line a well-formed model encodes to holds no CR.
proof fn lemma_disp_line_no_cr(m: PartModel)
    requires
        attr_wf(m.name),
        m.filename matches Some(f) ==> attr_wf(f),
    ensures
        forall|i: int| 0 <= i < disp_line(m).len() ==> disp_line(m)[i] != 13,
{
    lemma_prefix_bytes();
    let dl = disp_line(m);
    assert forall|i: int| 0 <= i < dl.len() implies dl[i] != 13 by {
        let pre = disp_prefix();
        let plen = pre.len() as int;
        let nlen = m.name.len() as int;
        if i < plen {
            assert(dl[i] == pre[i]);
        } else if i < plen + nlen {
            assert(dl[i] == m.name[i - plen]);
        } else if i == plen + nlen {
            assert(dl[i] == 34);
        } else {
            match m.filename {
                Some(f) => {
                    let fp = fname_prefix();
                    let j = i - (plen + nlen + 1);
                    if j < fp.len() {
                        assert(dl[i] == fp[j]);
                    } else if j < fp.len() + f.len() {
                        assert(dl[i] == f[j - fp.len()]);
                    } else {
                        assert(dl[i] == 34);
                    }
                },
                None => {
                    assert(false);
                },
            }
        }
    }
}

/// Scanning and finalising a well-formed body hands the model back.
proof fn lemma_part_body_encoded(
    m: PartModel,
    bnd: Seq<u8>,
    sep: Seq<u8>,
    terminal: bool,
    ct: Option<Seq<u8>>,
)
    requires
        wf_boundary(bnd),
        body_wf(m.body, bnd),
        ct == m.ctype,
        !terminal ==> sep.len() >= 2 && sep.subrange(0, 2) == crlf(),
        terminal ==> sep.len() >= 4 && sep.subrange(0, 2) == dashes() && sep.subrange(2, 4)
            == crlf(),
    ensures
        spec_part_body(m.body + crlf() + dashes() + bnd + sep, bnd, m.name, m.filename, ct)
            == (DecodeStep::Yield {
            part: m,
            used: m.body.len() + 4 + bnd.len() + (if terminal { 4int } else { 2int }),
            terminal,
        }),
{
    lemma_scan_encoded(m.body, bnd, sep, terminal);
    let content = m.body + crlf();
    assert(content.len() >= 2);
    assert(content[content.len() - 2] == 13 && content[content.len() - 1] == 10);
    assert(content.take(content.len() - 2) =~= m.body);
    assert(PartModel { name: m.name, filename: m.filename, ctype: ct, body: content.take(
        content.len() - 2,
    ) } =~= m);
}

/// From a header-line position with `ps` parts remaining, one step yields
/// the first part and consumes its whole segment; when parts remain, the
/// stream then stands at the next header line.
#[verifier::rlimit(100)]
proof fn lemma_part_step(ps: Seq<PartModel>, bnd: Seq<u8>)
    requires
        wf_boundary(bnd),
        ps.len() > 0,
        part_wf(ps[0], bnd),
    ensures
        spec_part_headers(enc_mid(ps, bnd), bnd) == (DecodeStep::Yield {
            part: ps[0],
            used: part_seg(ps[0], bnd).len() + (if ps.len() == 1 { 4int } else { 2int }),
            terminal: ps.len() == 1,
        }),
        ps.len() > 1 ==> enc_mid(ps, bnd).skip(part_seg(ps[0], bnd).len() as int + 2) == enc_mid(
            ps.skip(1),
            bnd,
        ),
{
    lemma_prefix_bytes();
    let m = ps[0];
    let u = enc_mid(ps, bnd);
    let dl = disp_line(m);
    let sep = enc_tail(ps.skip(1), bnd);
    let terminal = ps.len() == 1;
    let rest1 = ctype_lines(m) + crlf() + m.body + crlf() + dashes() + bnd + sep;
    assert(u =~= dl + crlf() + rest1);
    lemma_disp_line_no_cr(m);
    lemma_read_line_encoded(dl, rest1);
    lemma_parse_disposition_encoded(m);
    let v = u.skip(dl.len() as int + 2);
    assert(v == rest1) by {
        assert(u.skip(dl.len() as int + 2) =~= rest1);
    }
    if terminal {
        assert(ps.skip(1).len() == 0);
        assert(sep.subrange(0, 2) =~= dashes());
        assert(sep.subrange(2, 4) =~= crlf());
    } else {
        assert(ps.skip(1).len() > 0);
        assert(sep.subrange(0, 2) =~= crlf());
    }
    match m.ctype {
        None => {
            assert(rest1 =~= crlf() + (m.body + crlf() + dashes() + bnd + sep));
            assert(rest1[0] == 13 && rest1[1] == 10);
            assert(spec_read_line(rest1) == (LineStep::Line {
                bytes: Seq::<u8>::empty(),
                used: 2,
            }));
            assert(rest1.skip(2) =~= m.body + crlf() + dashes() + bnd + sep);
            lemma_part_body_encoded(m, bnd, sep, terminal, None);
        },
        Some(t) => {
            let cl = ctype_prefix() + t;
            let rest2 = crlf() + m.body + crlf() + dashes() + bnd + sep;
            assert(rest1 =~= cl + crlf() + rest2);
            assert forall|i: int| 0 <= i < cl.len() implies cl[i] != 13 by {
                if i < ctype_prefix().len() {
                    assert(cl[i] == ctype_prefix()[i]);
                } else {
                    assert(cl[i] == t[i - ctype_prefix().len()]);
                }
            }
            lemma_read_line_encoded(cl, rest2);
            assert(cl.len() > 0);
            let w = rest1.skip(cl.len() as int + 2);
            assert(w == rest2) by {
                assert(rest1.skip(cl.len() as int + 2) =~= rest2);
            }
            assert(w[0] == 13 && w[1] == 10);
            assert(spec_parse_ctype(cl) == t) by {
                assert(spec_starts_with(cl, ctype_prefix())) by {
                    assert(cl.take(ctype_prefix().len() as int) =~= ctype_prefix());
                }
                assert(cl.skip(ctype_prefix().len() as int) =~= t);
            }
            assert(w.skip(2) =~= m.body + crlf() + dashes() + bnd + sep);
            lemma_part_body_encoded(m, bnd, sep, terminal, Some(t));
        },
    }
    if ps.len() > 1 {
        assert(u.skip(part_seg(m, bnd).len() as int + 2) =~= enc_mid(ps.skip(1), bnd));
    }
}

/// Driving the decoder from a header-line position with `ps` well-formed
/// parts remaining yields exactly those parts.
proof fn lemma_decode_rest(ps: Seq<PartModel>, bnd: Seq<u8>)
    requires
        wf_boundary(bnd),
        ps.len() > 0,
        forall|k: int| 0 <= k < ps.len() ==> part_wf(#[trigger] ps[k], bnd),
    ensures
        spec_decode_all(enc_mid(ps, bnd), bnd, false) == Some(ps),
    decreases ps.len(),
{
    lemma_part_step(ps, bnd);
    let u = enc_mid(ps, bnd);
    if ps.len() == 1 {
        assert(seq![ps[0]] =~= ps);
    } else {
        let used = part_seg(ps[0], bnd).len() as int + 2;
        assert(enc_tail(ps.skip(1), bnd).len() >= 2) by {
            assert(ps.skip(1).len() > 0);
        }
        assert(0 < used <= u.len());
        assert(u.skip(used) == enc_mid(ps.skip(1), bnd));
        assert forall|k: int| 0 <= k < ps.skip(1).len() implies part_wf(
            #[trigger] ps.skip(1)[k],
            bnd,
        ) by {
            assert(ps.skip(1)[k] == ps[k + 1]);
        }
        lemma_decode_rest(ps.skip(1), bnd);
        assert(seq![ps[0]] + ps.skip(1) =~= ps);
    }
}

/// Round trip: a body assembled from well-formed parts with a well-formed
/// boundary decodes back to exactly those parts, in order, and then the
/// decode terminates — even when a part's content holds boundary-like
/// byte runs, which the scanner resynchronises over.
#[verifier::rlimit(100)]
pub proof fn lemma_decode_encode(ps: Seq<PartModel>, bnd: Seq<u8>)
    requires
        wf_boundary(bnd),
        forall|k: int| 0 <= k < ps.len() ==> part_wf(#[trigger] ps[k], bnd),
    ensures
        spec_decode_all(encode(ps, bnd), bnd, true) == Some(ps),
{
    let s = encode(ps, bnd);
    let blen = bnd.len() as int;
    let et = enc_tail(ps, bnd);
    assert(s[0] == 45 && s[1] == 45);
    assert(s.skip(2) =~= bnd + et);
    lemma_match_len_self(bnd, et);
    let t = s.skip(2 + blen);
    assert(t =~= et);
    if ps.len() == 0 {
        assert(t[0] == 45 && t[1] == 45 && t[2] == 13 && t[3] == 10);
        assert(spec_first_boundary(s, bnd) == (FirstStep::Empty { used: 2 + blen + 4 }));
        assert(ps =~= Seq::<PartModel>::empty());
    } else {
        assert(t[0] == 13 && t[1] == 10);
        let used0 = 2 + blen + 2;
        assert(spec_first_boundary(s, bnd) == (FirstStep::Parts { used: used0 }));
        assert(s.skip(used0) == enc_mid(ps, bnd)) by {
            assert(s.skip(used0) =~= enc_mid(ps, bnd));
        }
        lemma_part_step(ps, bnd);
        if ps.len() == 1 {
            assert(seq![ps[0]] =~= ps);
        } else {
            let used1 = part_seg(ps[0], bnd).len() as int + 2;
            let total = used0 + used1;
            assert(enc_tail(ps.skip(1), bnd).len() >= 2) by {
                assert(ps.skip(1).len() > 0);
            }
            assert(0 < total <= s.len());
            assert(s.skip(total) == enc_mid(ps.skip(1), bnd)) by {
                assert(s.skip(total) =~= s.skip(used0).skip(used1));
            }
            assert forall|k: int| 0 <= k < ps.skip(1).len() implies part_wf(
                #[trigger] ps.skip(1)[k],
                bnd,
            ) by {
                assert(ps.skip(1)[k] == ps[k + 1]);
            }
            lemma_decode_rest(ps.skip(1), bnd);
            assert(seq![ps[0]] + ps.skip(1) =~= ps);
        }
    }
}

/// `p` stands somewhere in `s`.
pub open spec fn contains_at(s: Seq<u8>, p: Seq<u8>, i: int) -> bool {
    &&& 0 <= i
    &&& i + p.len() <= s.len()
    &&& s.subrange(i, i + p.len() as int) == p
}

/// Content in which the run `--BOUNDARY` never occurs before the genuine
/// boundary is clean; in particular, content that merely ends in a stray
/// `-`, or contains `-` runs shorter than a full boundary, round-trips.
#[verifier::rlimit(100)]
pub proof fn lemma_no_run_body_wf(body: Seq<u8>, bnd: Seq<u8>)
    requires
        forall|i: int| 0 <= i < body.len() + 2 ==> !contains_at(
            body + crlf() + dashes() + bnd,
            dashes() + bnd,
            i,
        ),
    ensures
        body_wf(body, bnd),
{
    let ws = body + crlf() + dashes() + bnd;
    assert forall|i: int| 0 <= i < body.len() + 2 implies !delimiter_at(ws, bnd, i) by {
        if delimiter_at(ws, bnd, i) {
            lemma_delimiter_gives_run(ws, bnd, i);
        }
    }
}

/// A live delimiter in particular contains the `--BOUNDARY` run.
proof fn lemma_delimiter_gives_run(ws: Seq<u8>, bnd: Seq<u8>, i: int)
    requires
        delimiter_at(ws, bnd, i),
    ensures
        contains_at(ws, dashes() + bnd, i),
{
    let blen = bnd.len() as int;
    assert(ws.subrange(i, i + 2 + blen) =~= ws.subrange(i, i + 2) + ws.subrange(
        i + 2,
        i + 2 + blen,
    ));
}

/// A disposition line without the required `Content-Disposition` prefix
/// kills the decode with `MalformedHeaderLine`; no part is yielded for
/// that segment.
pub proof fn lemma_malformed_disposition(s: Seq<u8>, bnd: Seq<u8>)
    requires
        bnd.len() > 0,
        spec_read_line(s) matches LineStep::Line { bytes, used } && !spec_starts_with(
            bytes,
            disp_prefix(),
        ),
    ensures
        spec_next_part(s, bnd, false) == (DecodeStep::Fail { err: MPartError::MalformedHeaderLine }),
{
}

/// Index of the first occurrence of `p` inside `s`, if any.
pub open spec fn find_sub(s: Seq<u8>, p: Seq<u8>) -> Option<int>
    decreases s.len(),
{
    if p.len() > s.len() {
        None
    } else if s.take(p.len() as int) == p {
        Some(0)
    } else if s.len() == 0 {
        None
    } else {
        match find_sub(s.skip(1), p) {
            Some(i) => Some(i + 1),
            None => None,
        }
    }
}

/// What [`find_sub`] returns, characterised without recursion.
pub proof fn lemma_find_sub(s: Seq<u8>, p: Seq<u8>)
    ensures
        match find_sub(s, p) {
            Some(i) => 0 <= i && i + p.len() <= s.len() && spec_starts_with(s.skip(i), p)
                && forall|j: int| 0 <= j < i ==> !spec_starts_with(s.skip(j), p),
            None => forall|j: int| 0 <= j <= s.len() ==> !spec_starts_with(s.skip(j), p),
        },
    decreases s.len(),
{
    if p.len() <= s.len() && s.take(p.len() as int) == p {
        assert(s.skip(0) =~= s);
    } else if s.len() == 0 {
        assert forall|j: int| 0 <= j <= s.len() implies !spec_starts_with(s.skip(j), p) by {
            assert(s.skip(j) =~= s);
        }
    } else {
        lemma_find_sub(s.skip(1), p);
        assert(s.skip(0) =~= s);
        match find_sub(s.skip(1), p) {
            Some(i) => {
                assert(s.skip(1).skip(i) =~= s.skip(i + 1));
                assert forall|j: int| 0 <= j < i + 1 implies !spec_starts_with(s.skip(j), p) by {
                    if j > 0 {
                        assert(s.skip(1).skip(j - 1) =~= s.skip(j));
                    }
                }
            },
            None => {
                assert forall|j: int| 0 <= j <= s.len() implies !spec_starts_with(s.skip(j), p) by {
                    if j > 0 {
                        assert(s.skip(1).skip(j - 1) =~= s.skip(j));
                    }
                }
            },
        }
    }
}

/// The `; boundary=` marker inside a `Content-Type` header value.
pub open spec fn boundary_marker() -> Seq<u8> {
    encode_utf8("; boundary="@)
}

/// The boundary bytes declared by a `multipart/form-data` content type:
/// everything after the first `; boundary=`.  A value without the marker
/// supplies no boundary.
#[verifier::loop_isolation(false)]
pub fn extract_boundary(content_type: &str) -> (r: Result<Vec<u8>, MPartError>)
    ensures
        ({
            let bytes = encode_utf8(content_type@);
            match find_sub(bytes, boundary_marker()) {
                Some(i) => r matches Ok(b) && b@ == bytes.skip(i + boundary_marker().len()),
                None => r == Err::<Vec<u8>, MPartError>(MPartError::NoBoundarySupplied),
            }
        }),
{
    let s = content_type.as_bytes();
    let pat = "; boundary=".as_bytes();
    assert(pat@ == boundary_marker());
    proof {
        reveal_strlit("; boundary=");
        assert(vstd::utf8::is_ascii_chars("; boundary="@));
        vstd::utf8::is_ascii_chars_encode_utf8("; boundary="@);
        assert(pat@.len() == 11);
    }
    let n = s.len();
    if pat.len() > n {
        proof {
            lemma_find_sub(s@, pat@);
            let r = find_sub(s@, pat@);
            if r is Some {
                assert(s@.skip(r->Some_0).len() < pat@.len());
            }
        }
        return Err(MPartError::NoBoundarySupplied);
    }
    let mut i: usize = 0;
    while i <= n - pat.len()
        invariant
            0 <= i,
            i <= n - pat@.len() + 1,
            n == s@.len(),
            pat@.len() == 11,
            pat@ == boundary_marker(),
            pat@.len() <= n,
            forall|j: int| 0 <= j < i ==> !spec_starts_with(s@.skip(j), pat@),
        decreases n - i,
    {
        let sub = vstd::slice::slice_subrange(s, i, n);
        if starts_with_bytes(sub, pat) {
            proof {
                assert(sub@ =~= s@.skip(i as int));
                lemma_find_sub(s@, pat@);
                let r = find_sub(s@, pat@);
                if r is None {
                    assert(!spec_starts_with(s@.skip(i as int), pat@));
                } else {
                    let k = r->Some_0;
                    if k < i {
                        assert(!spec_starts_with(s@.skip(k), pat@));
                    } else if k > i {
                        assert(!spec_starts_with(s@.skip(i as int), pat@));
                    }
                }
            }
            let b = vstd::slice::slice_to_vec(
                vstd::slice::slice_subrange(s, i + pat.len(), n),
            );
            proof {
                assert(b@ =~= s@.skip(i as int + pat@.len()));
            }
            return Ok(b);
        }
        proof {
            assert(sub@ =~= s@.skip(i as int));
        }
        i = i + 1;
    }
    proof {
        lemma_find_sub(s@, pat@);
        let r = find_sub(s@, pat@);
        if r is Some {
            let k = r->Some_0;
            if k < i {
                assert(!spec_starts_with(s@.skip(k), pat@));
            } else {
                assert(s@.skip(k).len() < pat@.len());
            }
        }
    }
    Err(MPartError::NoBoundarySupplied)
}

/// Compares the declared body length against what was consumed; a
/// mismatch is the caller's size error.
pub fn check_consumed(declared: usize, consumed: usize) -> (r: Result<(), MPartError>)
    ensures
        declared == consumed <==> r == Ok::<(), MPartError>(()),
        declared != consumed <==> r == Err::<(), MPartError>(MPartError::SizeMismatch),
{
    if declared == consumed {
        Ok(())
    } else {
        Err(MPartError::SizeMismatch)
    }
}

/// A `text/` content type, the prefix read character by character.
pub open spec fn is_text_ctype(t: Seq<char>) -> bool {
    t.len() >= 5 && t.take(5) == "text/"@
}

/// The in-memory text of a part, for parts the parameter map stores
/// directly: a part without a content type is read as UTF-8 (`None` when
/// the bytes are not), a `text/...` part as ISO-8859-1, and anything
/// else — a file upload to be spooled — yields `None`.
pub fn part_text_content(p: &Part) -> (r: Option<String>)
    ensures
        match p.content_type {
            None => if valid_utf8(p.content@) {
                r matches Some(s) && s@ == decode_utf8(p.content@)
            } else {
                r is None
            },
            Some(t) => if is_text_ctype(t@) {
                r matches Some(s) && s@.len() == p.content@.len() && forall|i: int|
                    0 <= i < p.content@.len() ==> s@[i] == p.content@[i] as char
            } else {
                r is None
            },
        },
{
    match &p.content_type {
        None => string_from_utf8(clone_bytes(&p.content)),
        Some(t) => {
            let ts = t.as_str();
            let n = ts.unicode_len();
            let is_text = n >= 5 && ts.get_char(0) == 't' && ts.get_char(1) == 'e' && ts.get_char(
                2,
            ) == 'x' && ts.get_char(3) == 't' && ts.get_char(4) == '/';
            proof {
                reveal_strlit("text/");
                if n >= 5 {
                    assert(t@.take(5) == "text/"@ <==> (t@[0] == 't' && t@[1] == 'e' && t@[2]
                        == 'x' && t@[3] == 't' && t@[4] == '/')) by {
                        if t@[0] == 't' && t@[1] == 'e' && t@[2] == 'x' && t@[3] == 't' && t@[4]
                            == '/' {
                            assert(t@.take(5) =~= "text/"@);
                        } else {
                            if t@.take(5) == "text/"@ {
                                assert(t@.take(5)[0] == t@[0]);
                                assert(t@.take(5)[1] == t@[1]);
                                assert(t@.take(5)[2] == t@[2]);
                                assert(t@.take(5)[3] == t@[3]);
                                assert(t@.take(5)[4] == t@[4]);
                            }
                        }
                    }
                }
            }
            if is_text {
                Some(crate::data::iso_8859_1_to_string(p.content.as_slice()))
            } else {
                None
            }
        },
    }
}

/// A copy of a byte vector.
fn clone_bytes(v: &Vec<u8>) -> (r: Vec<u8>)
    ensures
        r@ == v@,
{
    let mut r: Vec<u8> = Vec::new();
    let mut i: usize = 0;
    while i < v.len()
        invariant
            0 <= i <= v@.len(),
            r@ == v@.take(i as int),
        decreases v@.len() - i,
    {
        r.push(v[i]);
        proof {
            assert(r@ =~= v@.take(i as int + 1));
        }
        i = i + 1;
    }
    proof {
        assert(v@.take(v@.len() as int) =~= v@);
    }
    r
}

} // verus!
