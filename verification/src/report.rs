//! What a finished run is stored as, and what is said of a run on the way.

use crate::cli::RunArgs;
use crate::result::{BenchResult, Cell, GitInfo, HostInfo, RunConfig, SCHEMA_VERSION};
use crate::runner::{Backend, EffectiveConfig, PixelFormat};
use crate::text::{chars_of, decimal, decimal_of, has_substring, matches_at, slice_of, string_of};
use vstd::prelude::*;
use vstd::utf8::encode_utf8;

verus! {

/// Whether a point in time, in seconds since the epoch and nanoseconds, is one that
/// a date can be given for: the year lies between -262143 and 262142, and the
/// nanoseconds reach a second only where a minute ends and a leap second may be.
pub open spec fn representable(secs: i64, nanos: u32) -> bool {
    &&& -8334601228800 <= secs <= 8210266876799
    &&& nanos < 1_000_000_000 || nanos < 2_000_000_000 && secs % 60 == 59
}

/// What `chrono::DateTime::to_rfc3339` writes for a point in time.
pub uninterp spec fn rfc3339_text(secs: i64, nanos: u32) -> Seq<char>;

/// What `chrono::DateTime::format` writes for a point in time by a pattern.
pub uninterp spec fn formatted_text(secs: i64, nanos: u32, pattern: Seq<char>) -> Seq<char>;

/// `chrono::DateTime::from_timestamp` gives the point in time in UTC, exactly where
/// it is representable, and `to_rfc3339` writes it out. The text is only named.
#[verifier::external_body]
fn rfc3339(secs: i64, nanos: u32) -> (r: Option<String>)
    ensures
        (r is Some) == representable(secs, nanos),
        r is Some ==> r->0@ == rfc3339_text(secs, nanos),
{
    let t = chrono::DateTime::from_timestamp(secs, nanos)?;
    Some(t.to_rfc3339())
}

/// `chrono::DateTime::from_timestamp` gives the point in time in UTC, exactly where
/// it is representable, and `format` writes it out by the pattern, which is the one
/// that file names are made by: some other patterns cannot be written out. The text
/// is only named.
#[verifier::external_body]
fn formatted(secs: i64, nanos: u32, pattern: &str) -> (r: Option<String>)
    requires
        pattern@ == "%Y%m%dT%H%M%SZ"@,
    ensures
        (r is Some) == representable(secs, nanos),
        r is Some ==> r->0@ == formatted_text(secs, nanos, pattern@),
{
    let t = chrono::DateTime::from_timestamp(secs, nanos)?;
    Some(t.format(pattern).to_string())
}

/// A point in time, written out.
#[derive(Debug)]
pub struct Stamp {
    /// As it is recorded in a result.
    pub timestamp: String,
    /// As it stands in the name of a result file.
    pub compact: String,
}

/// Writes out a point in time, where a date can be given for it.
pub fn stamp(secs: i64, nanos: u32) -> (r: Option<Stamp>)
    ensures
        (r is Some) == representable(secs, nanos),
        r matches Some(s) ==> s.timestamp@ == rfc3339_text(secs, nanos) && s.compact@
            == formatted_text(secs, nanos, "%Y%m%dT%H%M%SZ"@),
{
    let timestamp = match rfc3339(secs, nanos) {
        Some(t) => t,
        None => return None,
    };
    match formatted(secs, nanos, "%Y%m%dT%H%M%SZ") {
        Some(c) => Some(Stamp { timestamp, compact: c }),
        None => None,
    }
}

/// Whether a character stands in file names as it is: an ASCII letter or digit, or
/// a hyphen.
pub open spec fn is_plain(c: char) -> bool {
    'a' <= c <= 'z' || 'A' <= c <= 'Z' || '0' <= c <= '9' || c == '-'
}

/// A label with an underscore for every character that is not plain.
pub open spec fn sanitized(s: Seq<char>) -> Seq<char> {
    s.map_values(
        |c: char|
            if is_plain(c) {
                c
            } else {
                '_'
            },
    )
}

/// A label as it stands in file names.
pub fn sanitize(s: &str) -> (r: String)
    ensures
        r@ == sanitized(s@),
{
    let chars: Vec<char> = chars_of(s);
    let mut out = String::new();
    for i in 0..chars.len()
        invariant
            out@ =~= sanitized(chars@.take(i as int)),
    {
        let c = chars[i];
        let plain = ('a' <= c && c <= 'z') || ('A' <= c && c <= 'Z') || ('0' <= c && c <= '9') || c
            == '-';
        out.push(if plain { c } else { '_' });
        assert(chars@.take(i as int + 1) =~= chars@.take(i as int).push(c));
    }
    assert(chars@.take(chars@.len() as int) =~= chars@);
    out
}

/// A sanitized label holds only plain characters and underscores, as many as the
/// label, and sanitizing it again changes nothing.
pub proof fn law_sanitizing_is_final(s: Seq<char>)
    ensures
        sanitized(s).len() == s.len(),
        forall|i: int|
            0 <= i < s.len() ==> is_plain(#[trigger] sanitized(s)[i]) || sanitized(s)[i] == '_',
        sanitized(sanitized(s)) == sanitized(s),
        (forall|i: int| 0 <= i < s.len() ==> is_plain(#[trigger] s[i])) ==> sanitized(s) == s,
{
    assert(sanitized(sanitized(s)) =~= sanitized(s));
    if forall|i: int| 0 <= i < s.len() ==> is_plain(#[trigger] s[i]) {
        assert(sanitized(s) =~= s);
    }
}

/// At most the first seven characters.
pub open spec fn first_seven(s: Seq<char>) -> Seq<char> {
    if s.len() < 7 {
        s
    } else {
        s.take(7)
    }
}

/// The name of the file that a result is stored in: when, of which revision and,
/// if there is one, with which label.
pub open spec fn filename_of(compact: Seq<char>, plugin_rev: Seq<char>, label: Seq<char>) -> Seq<
    char,
> {
    compact + "_"@ + first_seven(plugin_rev) + (if label.len() == 0 {
        Seq::empty()
    } else {
        "_"@ + sanitized(label)
    }) + ".json"@
}

/// The name of the file that a result is stored in.
pub fn result_filename(compact: &str, plugin_rev: &str, label: &str) -> (r: String)
    ensures
        r@ == filename_of(compact@, plugin_rev@, label@),
{
    let rev: Vec<char> = chars_of(plugin_rev);
    let n: usize = if rev.len() < 7 { rev.len() } else { 7 };
    let head: Vec<char> = slice_of(&rev, 0, n);
    assert(head@ =~= first_seven(plugin_rev@));
    let mut tail = String::new();
    if !label.is_empty() {
        tail.append("_");
        tail.append(sanitize(label).as_str());
        assert(tail@ =~= "_"@ + sanitized(label@));
    }
    let mut out = compact.to_owned();
    out.append("_");
    out.append(string_of(head.as_slice()).as_str());
    out.append(tail.as_str());
    out.append(".json");
    out
}

proof fn lemma_encode_concat(a: Seq<char>, b: Seq<char>)
    ensures
        encode_utf8(a + b) == encode_utf8(a) + encode_utf8(b),
    decreases a.len(),
{
    if a.len() == 0 {
        assert(a + b =~= b);
        assert(encode_utf8(a) + encode_utf8(b) =~= encode_utf8(b));
    } else {
        lemma_encode_concat(a.drop_first(), b);
        assert((a + b).drop_first() =~= a.drop_first() + b);
        assert(encode_utf8(a + b) =~= encode_utf8(a) + encode_utf8(b));
    }
}

/// Every stored result is taken for one when results are listed or looked up.
pub proof fn law_stored_results_are_listed(
    compact: Seq<char>,
    plugin_rev: Seq<char>,
    label: Seq<char>,
)
    ensures
        crate::lookup::is_json_name(encode_utf8(filename_of(compact, plugin_rev, label))),
{
    let front = compact + "_"@ + first_seven(plugin_rev) + (if label.len() == 0 {
        Seq::empty()
    } else {
        "_"@ + sanitized(label)
    });
    let name = filename_of(compact, plugin_rev, label);
    assert(name == front + ".json"@);
    lemma_encode_concat(front, ".json"@);
    reveal_strlit(".json");
    reveal_strlit("_");
    assert(vstd::utf8::is_ascii_chars(".json"@));
    vstd::utf8::is_ascii_chars_encode_utf8(".json"@);
    let tail = encode_utf8(".json"@);
    assert(tail =~= seq![46u8, 106u8, 115u8, 111u8, 110u8]) by {
        assert(".json"@[0] as u8 == tail[0]);
        assert(".json"@[1] as u8 == tail[1]);
        assert(".json"@[2] as u8 == tail[2]);
        assert(".json"@[3] as u8 == tail[3]);
        assert(".json"@[4] as u8 == tail[4]);
    }
    assert(front[compact.len() as int] == '_');
    assert(encode_utf8(front).len() > 0) by {
        assert(front.len() > 0);
        vstd::utf8::encode_utf8_first_scalar(front);
    }
    let bytes = encode_utf8(name);
    assert(bytes.subrange(bytes.len() - 5, bytes.len() as int) =~= tail);
}

/// The name of a stored result contains its label as far as that is plain, so that
/// the result is found by it.
pub proof fn law_stored_results_are_found_by_label(
    compact: Seq<char>,
    plugin_rev: Seq<char>,
    label: Seq<char>,
)
    requires
        label.len() > 0,
    ensures
        has_substring(filename_of(compact, plugin_rev, label), sanitized(label)),
        (forall|i: int| 0 <= i < label.len() ==> is_plain(#[trigger] label[i])) ==> has_substring(
            filename_of(compact, plugin_rev, label),
            label,
        ),
{
    reveal_strlit("_");
    let name = filename_of(compact, plugin_rev, label);
    let at = compact.len() as int + 1 + first_seven(plugin_rev).len() + 1;
    assert(name.subrange(at, at + sanitized(label).len()) =~= sanitized(label));
    assert(matches_at(name, sanitized(label), at));
    law_sanitizing_is_final(label);
}

/// How the source of frames is recorded.
pub open spec fn frame_source_of(video: Option<String>) -> Seq<char> {
    match video {
        Some(v) => "video:"@ + v@,
        None => "synthetic"@,
    }
}

/// How the source of frames is recorded.
pub fn frame_source_text(video: &Option<String>) -> (r: String)
    ensures
        r@ == frame_source_of(*video),
{
    match video {
        Some(v) => "video:".to_owned().concat(v.as_str()),
        None => "synthetic".to_owned(),
    }
}

/// The workload of a run, as it is recorded.
pub fn run_config(args: &RunArgs, eff: &EffectiveConfig) -> (r: RunConfig)
    ensures
        r.project@ == args.project@,
        r.input_size@ == seq![eff.input_size.0, eff.input_size.1],
        r.output_size@ == seq![eff.output_size.0, eff.output_size.1],
        r.frames == eff.frames,
        r.warmup == eff.warmup,
        r.iterations == eff.iterations,
        r.frame_source@ == frame_source_of(args.video),
{
    let r = RunConfig {
        project: args.project.clone(),
        input_size: [eff.input_size.0, eff.input_size.1],
        output_size: [eff.output_size.0, eff.output_size.1],
        frames: eff.frames,
        warmup: eff.warmup,
        iterations: eff.iterations,
        frame_source: frame_source_text(&args.video),
    };
    assert(r.input_size@ =~= seq![eff.input_size.0, eff.input_size.1]);
    assert(r.output_size@ =~= seq![eff.output_size.0, eff.output_size.1]);
    r
}

/// A result, and the name of the file to store it in.
#[derive(Debug)]
pub struct StoredResult {
    pub result: BenchResult,
    pub filename: String,
}

/// The result of a run that ended at the given time, where a date can be given for
/// that.
pub fn finish_run(
    secs: i64,
    nanos: u32,
    args: &RunArgs,
    eff: &EffectiveConfig,
    host: HostInfo,
    git: GitInfo,
    cells: Vec<Cell>,
) -> (r: Option<StoredResult>)
    ensures
        (r is Some) == representable(secs, nanos),
        r matches Some(s) ==> {
            &&& s.filename@ == filename_of(
                formatted_text(secs, nanos, "%Y%m%dT%H%M%SZ"@),
                git.plugin_rev@,
                args.label@,
            )
            &&& s.result.schema_version == SCHEMA_VERSION
            &&& s.result.timestamp@ == rfc3339_text(secs, nanos)
            &&& s.result.label@ == args.label@
            &&& s.result.host == host
            &&& s.result.git == git
            &&& s.result.cells == cells
            &&& s.result.config.project@ == args.project@
            &&& s.result.config.input_size@ == seq![eff.input_size.0, eff.input_size.1]
            &&& s.result.config.output_size@ == seq![eff.output_size.0, eff.output_size.1]
            &&& s.result.config.frames == eff.frames
            &&& s.result.config.warmup == eff.warmup
            &&& s.result.config.iterations == eff.iterations
            &&& s.result.config.frame_source@ == frame_source_of(args.video)
        },
{
    let when = match stamp(secs, nanos) {
        Some(s) => s,
        None => return None,
    };
    let filename = result_filename(
        when.compact.as_str(),
        git.plugin_rev.as_str(),
        args.label.as_str(),
    );
    Some(
        StoredResult {
            result: BenchResult {
                schema_version: SCHEMA_VERSION,
                timestamp: when.timestamp,
                label: args.label.clone(),
                host,
                git,
                config: run_config(args, eff),
                cells,
            },
            filename,
        },
    )
}

/// The line on the host of a run.
pub fn host_line(host: &HostInfo) -> (r: String)
    ensures
        r@ == "host:    "@ + host.hostname@ + " ("@ + host.os@ + " "@ + host.arch@ + ", "@
            + decimal_of(host.cpu_cores as nat) + " cores) \u{2014} "@ + host.cpu_model@,
{
    let mut out = "host:    ".to_owned();
    out.append(host.hostname.as_str());
    out.append(" (");
    out.append(host.os.as_str());
    out.append(" ");
    out.append(host.arch.as_str());
    out.append(", ");
    out.append(decimal(host.cpu_cores).as_str());
    out.append(" cores) \u{2014} ");
    out.append(host.cpu_model.as_str());
    out
}

/// A size, and where it comes from.
pub open spec fn sized(title: Seq<char>, size: (usize, usize), overridden: bool) -> Seq<char> {
    title + decimal_of(size.0 as nat) + "x"@ + decimal_of(size.1 as nat) + if overridden {
        " (CLI override)"@
    } else {
        " (from project)"@
    }
}

fn size_line(title: &str, size: (usize, usize), overridden: bool) -> (r: String)
    ensures
        r@ == sized(title@, size, overridden),
{
    let mut out = title.to_owned();
    out.append(decimal(size.0).as_str());
    out.append("x");
    out.append(decimal(size.1).as_str());
    if overridden {
        out.append(" (CLI override)");
    } else {
        out.append(" (from project)");
    }
    out
}

/// The line on the input size of a run.
pub fn input_line(eff: &EffectiveConfig) -> (r: String)
    ensures
        r@ == sized("input:   "@, eff.input_size, eff.size_override is Some),
{
    size_line("input:   ", eff.input_size, eff.size_override.is_some())
}

/// The line on the output size of a run.
pub fn output_line(eff: &EffectiveConfig) -> (r: String)
    ensures
        r@ == sized("output:  "@, eff.output_size, eff.size_override is Some),
{
    size_line("output:  ", eff.output_size, eff.size_override.is_some())
}

/// The line on the workload of a run, with the frame rate written out.
pub fn frames_line(args: &RunArgs, eff: &EffectiveConfig, fps: &str) -> (r: String)
    ensures
        r@ == "frames:  "@ + decimal_of(eff.frames as nat) + (if args.frames is Some {
            " (CLI) x "@
        } else {
            " (from project) x "@
        }) + decimal_of(eff.iterations as nat) + " iters (warmup "@ + decimal_of(eff.warmup as nat)
            + ", fps "@ + fps@ + ")"@,
{
    let mut out = "frames:  ".to_owned();
    out.append(decimal(eff.frames).as_str());
    if args.frames.is_some() {
        out.append(" (CLI) x ");
    } else {
        out.append(" (from project) x ");
    }
    out.append(decimal(eff.iterations).as_str());
    out.append(" iters (warmup ");
    out.append(decimal(eff.warmup).as_str());
    out.append(", fps ");
    out.append(fps);
    out.append(")");
    out
}

/// The line that announces a cell.
pub fn cell_title(backend: Backend, format: PixelFormat) -> (r: String)
    ensures
        r@ == "==> "@ + backend.text() + " / "@ + format.text(),
{
    let mut out = "==> ".to_owned();
    out.append(backend.name());
    out.append(" / ");
    out.append(format.name());
    out
}

/// The line on one iteration, with its statistics written out.
pub fn iteration_line(index: usize, median: &str, p95: &str, samples: usize) -> (r: String)
    ensures
        r@ == "    iter "@ + decimal_of(index as nat) + ": median "@ + median@ + " us, p95 "@ + p95@
            + " us, n="@ + decimal_of(samples as nat),
{
    let mut out = "    iter ".to_owned();
    out.append(decimal(index).as_str());
    out.append(": median ");
    out.append(median);
    out.append(" us, p95 ");
    out.append(p95);
    out.append(" us, n=");
    out.append(decimal(samples).as_str());
    out
}

/// The line on a cell that was skipped.
pub fn skip_line(msg: &str) -> (r: String)
    ensures
        r@ == "    SKIP: "@ + msg@,
{
    "    SKIP: ".to_owned().concat(msg)
}

/// The line that concludes a cell: why it was skipped, or else its statistics,
/// written out.
pub fn cell_summary_line(cell: &Cell, mean: &str, median: &str, p95: &str, p99: &str) -> (r: String)
    ensures
        r@ == match cell.note {
            Some(note) => "    SKIP: "@ + note@,
            None => "    summary: mean "@ + mean@ + " us, median "@ + median@ + " us, p95 "@ + p95@
                + " us, p99 "@ + p99@ + " us, n="@ + decimal_of(cell.summary.samples as nat),
        },
{
    if let Some(note) = &cell.note {
        return skip_line(note.as_str());
    }
    let mut out = "    summary: mean ".to_owned();
    out.append(mean);
    out.append(" us, median ");
    out.append(median);
    out.append(" us, p95 ");
    out.append(p95);
    out.append(" us, p99 ");
    out.append(p99);
    out.append(" us, n=");
    out.append(decimal(cell.summary.samples).as_str());
    out
}

/// A date can be given for every second of the years -262143 to 262142, and for
/// nanoseconds beyond the second only in the last second of a minute.
pub proof fn law_dates(secs: i64, nanos: u32)
    ensures
        representable(secs, nanos) ==> -8334601228800 <= secs <= 8210266876799 && nanos
            < 2_000_000_000,
        -8334601228800 <= secs <= 8210266876799 && nanos < 1_000_000_000 ==> representable(
            secs,
            nanos,
        ),
        representable(secs, nanos) && nanos >= 1_000_000_000 ==> (secs + 1) % 60 == 0,
        -8334601228800 <= secs <= 8210266876799 && nanos < 2_000_000_000 && (secs + 1) % 60 == 0
            ==> representable(secs, nanos),
{
}

/// Sanitizing goes character by character: ASCII letters, digits and hyphens stay as
/// they are, each anywhere in the label, and every other character becomes an
/// underscore.
pub proof fn law_sanitizing(s: Seq<char>, i: int)
    requires
        0 <= i < s.len(),
    ensures
        sanitized(s).len() == s.len(),
        ({
            let c = s[i] as int;
            let kept = 48 <= c <= 57 || 65 <= c <= 90 || 97 <= c <= 122 || c == 45;
            &&& kept ==> sanitized(s)[i] == s[i]
            &&& !kept ==> sanitized(s)[i] == '_'
        }),
{
}

/// The name of a stored result is made of the time, an underscore and at most seven
/// characters of the revision, then, if there is a label, an underscore and the
/// sanitized label, and in the end the extension.
pub proof fn law_filename(compact: Seq<char>, plugin_rev: Seq<char>, label: Seq<char>)
    ensures
        ({
            let name = filename_of(compact, plugin_rev, label);
            let rev: int = if plugin_rev.len() < 7 {
                plugin_rev.len() as int
            } else {
                7
            };
            let end = compact.len() + 1 + rev;
            let tail = if label.len() == 0 {
                end
            } else {
                end + 1 + label.len()
            };
            &&& name.len() == tail + 5
            &&& name.take(compact.len() as int) == compact
            &&& name[compact.len() as int] == '_'
            &&& name.subrange(compact.len() as int + 1, end) == plugin_rev.take(rev)
            &&& label.len() > 0 ==> name[end] == '_' && name.subrange(end + 1, tail) == sanitized(
                label,
            )
            &&& name.skip(tail) == ".json"@
        }),
{
    reveal_strlit("_");
    reveal_strlit(".json");
    let name = filename_of(compact, plugin_rev, label);
    let rev: int = if plugin_rev.len() < 7 {
        plugin_rev.len() as int
    } else {
        7
    };
    let end = compact.len() + 1 + rev;
    let tail = if label.len() == 0 {
        end
    } else {
        end + 1 + label.len()
    };
    assert(first_seven(plugin_rev) =~= plugin_rev.take(rev));
    assert(name.take(compact.len() as int) =~= compact);
    assert(name.subrange(compact.len() as int + 1, end) =~= plugin_rev.take(rev));
    if label.len() > 0 {
        assert(name.subrange(end + 1, tail) =~= sanitized(label));
    }
    assert(name.skip(tail) =~= ".json"@);
}

/// Results of different times, of the same length when written out, are stored under
/// different names.
pub proof fn law_different_times_do_not_collide(
    one: Seq<char>,
    other: Seq<char>,
    rev: Seq<char>,
    label: Seq<char>,
    rev2: Seq<char>,
    label2: Seq<char>,
)
    requires
        one.len() == other.len(),
        filename_of(one, rev, label) == filename_of(other, rev2, label2),
    ensures
        one == other,
{
    law_filename(one, rev, label);
    law_filename(other, rev2, label2);
}

/// The source of frames is recorded as the video, by its whole path, where there is
/// one, and as synthetic only where there is none.
pub proof fn law_frame_source(video: Option<String>)
    ensures
        video is None ==> frame_source_of(video) == "synthetic"@,
        video matches Some(v) ==> frame_source_of(video).skip(6) == v@ && frame_source_of(
            video,
        ).take(6) == "video:"@,
{
    reveal_strlit("video:");
    if let Some(v) = video {
        assert(frame_source_of(video).skip(6) =~= v@);
        assert(frame_source_of(video).take(6) =~= "video:"@);
    }
}

/// A size is told as its width, an `x` and its height behind the title, with where it
/// comes from.
pub proof fn law_sizes_are_told(title: Seq<char>, size: (usize, usize), overridden: bool)
    ensures
        ({
            let t = sized(title, size, overridden);
            let w = title.len() as int;
            let x = w + decimal_of(size.0 as nat).len();
            let end = x + 1 + decimal_of(size.1 as nat).len();
            &&& t.take(w) == title
            &&& t.subrange(w, x) == decimal_of(size.0 as nat)
            &&& t[x] == 'x'
            &&& t.subrange(x + 1, end) == decimal_of(size.1 as nat)
            &&& t.skip(end) == if overridden {
                " (CLI override)"@
            } else {
                " (from project)"@
            }
        }),
{
    reveal_strlit("x");
    let t = sized(title, size, overridden);
    let w = title.len() as int;
    let x = w + decimal_of(size.0 as nat).len();
    let end = x + 1 + decimal_of(size.1 as nat).len();
    assert(t.take(w) =~= title);
    assert(t.subrange(w, x) =~= decimal_of(size.0 as nat));
    assert(t.subrange(x + 1, end) =~= decimal_of(size.1 as nat));
    assert(t.skip(end) =~= if overridden {
        " (CLI override)"@
    } else {
        " (from project)"@
    });
}

} // verus!
