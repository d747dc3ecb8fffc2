//! Planning of one conversion: where the JPEG goes, which converter reads
//! the source, and what is asked of and reported by ffmpeg.

use vstd::prelude::*;
use crate::paths::{extension, file_stem, join, parent, path_extension, path_file_stem, path_join, path_parent};
use crate::text::{
    char_is_whitespace, chars_of, decimal, is_white_space, lowercase, push_char, push_decimal,
    to_lowercase,
};
use crate::text::string_texts;

verus! {

broadcast use vstd::string::group_string_axioms;

/// The outcome of converting one file.
#[derive(Debug)]
pub struct ConversionResult {
    /// The source file.
    pub original: String,
    /// The JPEG file written (or that would have been written).
    pub output: String,
    /// Whether the conversion succeeded.
    pub success: bool,
    /// Why it failed, when it did.
    pub error: Option<String>,
}

/// The record of one finished conversion, and whether its source is now
/// to be deleted: only a conversion that succeeded, and only when deletion
/// was asked for, deletes its source.
pub fn conclude_conversion(
    original: String,
    output: String,
    outcome: Result<(), String>,
    delete_original: bool,
) -> (concluded: (ConversionResult, bool))
    ensures
        concluded.0.original == original,
        concluded.0.output == output,
        concluded.0.success == outcome is Ok,
        concluded.0.error == match outcome {
            Ok(()) => None::<String>,
            Err(message) => Some(message),
        },
        concluded.1 == (delete_original && outcome is Ok),
{
    match outcome {
        Ok(()) => (ConversionResult { original, output, success: true, error: None }, delete_original),
        Err(message) => (ConversionResult { original, output, success: false, error: Some(message) }, false),
    }
}

/// The file name of the `attempt`-th output candidate for `stem`:
/// "stem.jpg" first, then "stem_1.jpg", "stem_2.jpg", ...
pub open spec fn jpg_name(stem: Seq<char>, attempt: nat) -> Seq<char> {
    if attempt == 0 {
        stem + seq!['.', 'j', 'p', 'g']
    } else {
        stem + seq!['_'] + decimal(attempt) + seq!['.', 'j', 'p', 'g']
    }
}

/// The file stem of the source, or nothing when it has no file name.
pub open spec fn source_stem(original: Seq<char>) -> Seq<char> {
    match path_file_stem(original) {
        Some(stem) => stem,
        None => seq![],
    }
}

/// The directory that receives the JPEG: the configured folder, or, when
/// none is configured, the source's own directory ("." when it has none).
pub open spec fn output_dir(original: Seq<char>, output_folder: Seq<char>) -> Seq<char> {
    if output_folder.len() == 0 {
        match path_parent(original) {
            Some(dir) => dir,
            None => seq!['.'],
        }
    } else {
        output_folder
    }
}

/// The `attempt`-th path tried for the JPEG of `original`.
pub open spec fn output_candidate(original: Seq<char>, output_folder: Seq<char>, attempt: nat) -> Seq<char> {
    path_join(output_dir(original, output_folder), jpg_name(source_stem(original), attempt))
}

/// The `attempt`-th path tried for the JPEG of `original`; the first of
/// them that does not exist yet is the output path.
pub fn output_path_candidate(original: &str, output_folder: &str, attempt: u32) -> (path: String)
    ensures
        path@ == output_candidate(original@, output_folder@, attempt as nat),
{
    let dir = if output_folder.is_empty() {
        match parent(original) {
            Some(d) => d,
            None => {
                let mut d = String::new();
                push_char(&mut d, '.');
                d
            },
        }
    } else {
        output_folder.to_string()
    };
    let mut name = match file_stem(original) {
        Some(stem) => stem,
        None => String::new(),
    };
    if attempt > 0 {
        push_char(&mut name, '_');
        push_decimal(&mut name, attempt as u64);
    }
    push_char(&mut name, '.');
    push_char(&mut name, 'j');
    push_char(&mut name, 'p');
    push_char(&mut name, 'g');
    proof {
        assert(dir@ =~= output_dir(original@, output_folder@));
        assert(name@ =~= jpg_name(source_stem(original@), attempt as nat));
    }
    join(dir.as_str(), name.as_str())
}

/// What to do after asking whether an output candidate exists.
#[derive(Debug, Clone, Copy, PartialEq, Eq, Structural)]
pub enum OutputStep {
    /// The candidate is free: it is the output path.
    Take,
    /// The candidate exists: try this attempt next.
    Try(u32),
}

/// One step of the search for a free output path: the candidate of
/// `attempt` is taken when nothing exists there, else the next attempt is
/// tried. (Attempts are numbered as `u32`; there is no attempt after
/// `u32::MAX`.)
pub fn output_search_step(attempt: u32, exists: bool) -> (step: OutputStep)
    requires
        exists ==> attempt < u32::MAX,
    ensures
        step == (if exists { OutputStep::Try((attempt + 1) as u32) } else { OutputStep::Take }),
{
    if exists {
        OutputStep::Try(attempt + 1)
    } else {
        OutputStep::Take
    }
}

/// Different attempts name different files, so trying attempts in turn
/// never retries a name.
pub proof fn lemma_jpg_names_distinct(stem: Seq<char>, a: nat, b: nat)
    requires
        a != b,
    ensures
        jpg_name(stem, a) != jpg_name(stem, b),
{
    let suffix = seq!['.', 'j', 'p', 'g'];
    crate::text::lemma_decimal_digits(a);
    crate::text::lemma_decimal_digits(b);
    if jpg_name(stem, a) == jpg_name(stem, b) {
        let n = stem.len() as int;
        if a == 0 {
            assert(jpg_name(stem, a)[n] == '.');
            assert(jpg_name(stem, b)[n] == '_');
        } else if b == 0 {
            assert(jpg_name(stem, b)[n] == '.');
            assert(jpg_name(stem, a)[n] == '_');
        } else {
            let na = jpg_name(stem, a);
            assert(na.subrange(n + 1, na.len() - 4) =~= decimal(a));
            let nb = jpg_name(stem, b);
            assert(nb.subrange(n + 1, nb.len() - 4) =~= decimal(b));
            crate::text::lemma_decimal_injective(a, b);
        }
    }
}

/// Whether a path's extension is "heic" or "heif", ignoring case.
pub open spec fn heic_source(path: Seq<char>) -> bool {
    match path_extension(path) {
        Some(ext) => lowercase(ext) == seq!['h', 'e', 'i', 'c'] || lowercase(ext) == seq!['h', 'e', 'i', 'f'],
        None => false,
    }
}

/// Whether the source is HEIC/HEIF, which ffmpeg converts; every other
/// format is decoded by the image library.
pub fn is_heic(path: &str) -> (heic: bool)
    ensures
        heic == heic_source(path@),
{
    match extension(path) {
        None => false,
        Some(ext) => {
            let lower = to_lowercase(ext.as_str());
            proof {
                reveal_strlit("heic");
                reveal_strlit("heif");
                assert("heic"@ =~= seq!['h', 'e', 'i', 'c']);
                assert("heif"@ =~= seq!['h', 'e', 'i', 'f']);
            }
            let heic = "heic".to_string();
            let heif = "heif".to_string();
            lower == heic || lower == heif
        },
    }
}

/// ffmpeg's `-q:v` value for a JPEG quality: 31 - 29 * quality / 100,
/// rounded half away from zero, then limited to 2..=31 (2 is best).
pub open spec fn quality_scale(quality: nat) -> nat {
    if 29 * quality > 3100 {
        2
    } else if (3150 - 29 * quality) / 100 < 2 {
        2
    } else {
        ((3150 - 29 * quality) / 100) as nat
    }
}

/// ffmpeg's `-q:v` value for a JPEG quality (see `quality_scale`).
pub fn ffmpeg_quality_scale(quality: u8) -> (scale: u32)
    ensures
        scale == quality_scale(quality as nat),
        2 <= scale <= 31,
{
    let q = quality as u32;
    if 29 * q > 3100 {
        2
    } else {
        let r = (3150 - 29 * q) / 100;
        if r < 2 {
            2
        } else {
            r
        }
    }
}

/// A higher JPEG quality never asks ffmpeg for a coarser scale; quality 0
/// asks for the coarsest (31), quality 100 and above for the finest (2).
pub proof fn lemma_quality_scale_monotone(q1: nat, q2: nat)
    requires
        q1 <= q2,
    ensures
        quality_scale(q1) >= quality_scale(q2),
        2 <= quality_scale(q1) <= 31,
        quality_scale(0) == 31,
        q2 >= 100 ==> quality_scale(q2) == 2,
{
    if 29 * q2 <= 3100 {
        assert((3150 - 29 * q2) / 100 <= (3150 - 29 * q1) / 100) by (nonlinear_arith)
            requires
                q1 <= q2,
                29 * q2 <= 3100,
        ;
    }
}

/// How many conversions succeeded in `results`.
pub open spec fn succeeded_count(results: Seq<ConversionResult>) -> nat
    decreases results.len(),
{
    if results.len() == 0 {
        0
    } else {
        succeeded_count(results.drop_last()) + if results.last().success { 1nat } else { 0nat }
    }
}

/// The numbers of conversions that succeeded and that failed, for the
/// closing report.
pub fn conversion_counts(results: &[ConversionResult]) -> (counts: (usize, usize))
    ensures
        counts.0 == succeeded_count(results@),
        counts.0 + counts.1 == results@.len(),
{
    let mut succeeded: usize = 0;
    let mut i: usize = 0;
    assert(results@.take(0) =~= Seq::<ConversionResult>::empty());
    while i < results.len()
        invariant
            i <= results@.len(),
            succeeded <= i,
            succeeded == succeeded_count(results@.take(i as int)),
        decreases results@.len() - i,
    {
        assert(results@.take(i + 1).drop_last() =~= results@.take(i as int));
        if results[i].success {
            succeeded = succeeded + 1;
        }
        i = i + 1;
    }
    assert(results@.take(i as int) =~= results@);
    (succeeded, results.len() - succeeded)
}

/// The ffmpeg arguments that convert `source` to `output` at `quality`.
pub open spec fn ffmpeg_argument_texts(source: Seq<char>, output: Seq<char>, quality: nat) -> Seq<Seq<char>> {
    seq![
        seq!['-', 'v'],
        seq!['e', 'r', 'r', 'o', 'r'],
        seq!['-', 'y'],
        seq!['-', 'i'],
        source,
        seq!['-', 'u', 'p', 'd', 'a', 't', 'e'],
        seq!['1'],
        seq!['-', 'q', ':', 'v'],
        decimal(quality_scale(quality)),
        output,
    ]
}

fn owned(s: &str) -> (owned: String)
    ensures
        owned@ == s@,
{
    s.to_string()
}

/// The arguments of the ffmpeg run that converts a HEIC/HEIF source.
pub fn ffmpeg_arguments(source: &str, output: &str, quality: u8) -> (args: Vec<String>)
    ensures
        string_texts(args@) == ffmpeg_argument_texts(source@, output@, quality as nat),
{
    proof {
        reveal_strlit("-v");
        reveal_strlit("error");
        reveal_strlit("-y");
        reveal_strlit("-i");
        reveal_strlit("-update");
        reveal_strlit("1");
        reveal_strlit("-q:v");
    }
    let mut args: Vec<String> = Vec::new();
    args.push(owned("-v"));
    args.push(owned("error"));
    args.push(owned("-y"));
    args.push(owned("-i"));
    args.push(owned(source));
    args.push(owned("-update"));
    args.push(owned("1"));
    args.push(owned("-q:v"));
    let mut scale = String::new();
    push_decimal(&mut scale, ffmpeg_quality_scale(quality) as u64);
    args.push(scale);
    args.push(owned(output));
    assert(string_texts(args@) =~~= ffmpeg_argument_texts(source@, output@, quality as nat));
    args
}

/// The unfinished line at the end of `s`: what follows its last '\n'.
pub open spec fn open_line(s: Seq<char>) -> Seq<char>
    decreases s.len(),
{
    if s.len() == 0 {
        seq![]
    } else if s.last() == '\n' {
        seq![]
    } else {
        open_line(s.drop_last()).push(s.last())
    }
}

/// `line` without one trailing carriage return.
pub open spec fn without_cr(line: Seq<char>) -> Seq<char> {
    if line.len() > 0 && line.last() == '\r' {
        line.drop_last()
    } else {
        line
    }
}

/// The lines of `s` that a '\n' ends, each without the '\n' and without
/// a '\r' just before it.
pub open spec fn ended_lines(s: Seq<char>) -> Seq<Seq<char>>
    decreases s.len(),
{
    if s.len() == 0 {
        seq![]
    } else if s.last() == '\n' {
        ended_lines(s.drop_last()).push(without_cr(open_line(s.drop_last())))
    } else {
        ended_lines(s.drop_last())
    }
}

/// The lines of `s` (std `str::lines`): split at "\n" or "\r\n"; a final
/// line ending is optional.
pub open spec fn text_lines(s: Seq<char>) -> Seq<Seq<char>> {
    if open_line(s).len() == 0 {
        ended_lines(s)
    } else {
        ended_lines(s).push(open_line(s))
    }
}

/// Whether a line holds only white space.
pub open spec fn is_blank(line: Seq<char>) -> bool {
    forall|i: int| 0 <= i < line.len() ==> is_white_space(#[trigger] line[i])
}

/// The lines that are not blank, in order.
pub open spec fn nonblank_lines(lines: Seq<Seq<char>>) -> Seq<Seq<char>>
    decreases lines.len(),
{
    if lines.len() == 0 {
        seq![]
    } else if is_blank(lines.last()) {
        nonblank_lines(lines.drop_last())
    } else {
        nonblank_lines(lines.drop_last()).push(lines.last())
    }
}

/// The lines joined with `sep` between neighbours.
pub open spec fn joined(lines: Seq<Seq<char>>, sep: Seq<char>) -> Seq<char>
    decreases lines.len(),
{
    if lines.len() == 0 {
        seq![]
    } else if lines.len() == 1 {
        lines[0]
    } else {
        joined(lines.drop_last(), sep) + sep + lines.last()
    }
}

/// The message reported when ffmpeg fails: its non-blank error lines
/// joined with "; ", or a fixed message when there are none.
pub open spec fn ffmpeg_failure_text(stderr: Seq<char>) -> Seq<char> {
    let summary = nonblank_lines(text_lines(stderr));
    if summary.len() == 0 {
        "ffmpeg exited with non-zero status"@
    } else {
        joined(summary, seq![';', ' '])
    }
}

fn push_prefix(s: &mut String, cs: &Vec<char>, upto: usize)
    requires
        upto <= cs@.len(),
    ensures
        final(s)@ == old(s)@ + cs@.take(upto as int),
{
    let mut i: usize = 0;
    while i < upto
        invariant
            i <= upto <= cs@.len(),
            s@ == old(s)@ + cs@.take(i as int),
        decreases upto - i,
    {
        push_char(s, cs[i]);
        assert(cs@.take(i + 1) =~= cs@.take(i as int).push(cs@[i as int]));
        i = i + 1;
    }
}

/// Appends `line` to the summary `out` (with a separator when it already
/// holds a line), unless the line is blank.
fn add_summary_line(out: &mut String, any: &mut bool, line: &Vec<char>, len: usize, blank: bool, Ghost(done): Ghost<Seq<Seq<char>>>)
    requires
        len <= line@.len(),
        blank == is_blank(line@.take(len as int)),
        old(out)@ == joined(nonblank_lines(done), seq![';', ' ']),
        *old(any) == (nonblank_lines(done).len() > 0),
    ensures
        final(out)@ == joined(nonblank_lines(done.push(line@.take(len as int))), seq![';', ' ']),
        *final(any) == (nonblank_lines(done.push(line@.take(len as int))).len() > 0),
{
    let ghost l = line@.take(len as int);
    assert(done.push(l).drop_last() =~= done);
    if !blank {
        if *any {
            push_char(out, ';');
            push_char(out, ' ');
        }
        push_prefix(out, line, len);
        *any = true;
        proof {
            let lines = nonblank_lines(done).push(l);
            if nonblank_lines(done).len() == 0 {
                assert(lines.len() == 1);
                assert(out@ =~= joined(lines, seq![';', ' ']));
            } else {
                assert(lines.drop_last() =~= nonblank_lines(done));
                assert(out@ =~= joined(lines, seq![';', ' ']));
            }
        }
    }
}

/// The message reported when ffmpeg exits with failure, from what it wrote
/// to standard error (see `ffmpeg_failure_text`).
pub fn ffmpeg_failure_message(stderr: &str) -> (message: String)
    ensures
        message@ == ffmpeg_failure_text(stderr@),
{
    let cs = chars_of(stderr);
    let mut out = String::new();
    let mut any = false;
    let mut line: Vec<char> = Vec::new();
    let mut blank = true;
    let mut i: usize = 0;
    assert(cs@.take(0) =~= Seq::<char>::empty());
    while i < cs.len()
        invariant
            i <= cs@.len(),
            cs@ == stderr@,
            line@ == open_line(cs@.take(i as int)),
            blank == is_blank(line@),
            out@ == joined(nonblank_lines(ended_lines(cs@.take(i as int))), seq![';', ' ']),
            any == (nonblank_lines(ended_lines(cs@.take(i as int))).len() > 0),
        decreases cs@.len() - i,
    {
        let c = cs[i];
        let ghost prefix = cs@.take(i as int);
        let ghost next = cs@.take(i + 1);
        assert(next.drop_last() =~= prefix);
        assert(next.last() == c);
        if c == '\n' {
            let n = line.len();
            let len = if n > 0 && line[n - 1] == '\r' { n - 1 } else { n };
            proof {
                assert(line@.take(len as int) =~= without_cr(line@));
                assert(is_blank(line@.take(len as int)) == blank) by {
                    if len < n {
                        assert(is_white_space('\r'));
                        assert forall|k: int| 0 <= k < len implies line@.take(len as int)[k] == line@[k] by {}
                    }
                }
            }
            add_summary_line(&mut out, &mut any, &line, len, blank, Ghost(ended_lines(prefix)));
            line = Vec::new();
            blank = true;
            assert(open_line(next) =~= Seq::<char>::empty());
        } else {
            let ws = char_is_whitespace(c);
            let ghost before = line@;
            line.push(c);
            blank = blank && ws;
            proof {
                assert(line@ =~= open_line(next));
                assert(line@.drop_last() =~= before);
                if blank {
                    assert forall|k: int| 0 <= k < line@.len() implies is_white_space(#[trigger] line@[k]) by {
                        if k < before.len() {
                            assert(line@[k] == before[k]);
                        }
                    }
                } else if !ws {
                    assert(!is_white_space(line@[line@.len() - 1]));
                } else {
                    let k = choose|k: int| 0 <= k < before.len() && !is_white_space(#[trigger] before[k]);
                    assert(line@[k] == before[k]);
                }
            }
        }
        i = i + 1;
    }
    assert(cs@.take(i as int) =~= stderr@);
    let n = line.len();
    if n > 0 {
        assert(line@.take(n as int) =~= line@);
        add_summary_line(&mut out, &mut any, &line, n, blank, Ghost(ended_lines(stderr@)));
    }
    proof {
        let lines = text_lines(stderr@);
        if n > 0 {
            assert(lines == ended_lines(stderr@).push(line@));
        } else {
            assert(lines == ended_lines(stderr@));
        }
    }
    if !any {
        proof {
            reveal_strlit("ffmpeg exited with non-zero status");
        }
        "ffmpeg exited with non-zero status".to_string()
    } else {
        out
    }
}


/// The output file keeps the source's file stem exactly as written: the
/// `attempt`-th candidate is "<stem>.jpg" for attempt 0 and
/// "<stem>_<attempt>.jpg" after that, joined to the output folder or, when
/// none is set, to the source's directory ("." when it has none).
pub proof fn lemma_output_candidate_keeps_stem(original: Seq<char>, output_folder: Seq<char>, attempt: nat)
    ensures
        ({
            let dir = if output_folder.len() == 0 {
                match path_parent(original) {
                    Some(d) => d,
                    None => seq!['.'],
                }
            } else {
                output_folder
            };
            let stem = match path_file_stem(original) {
                Some(s) => s,
                None => Seq::<char>::empty(),
            };
            let name = if attempt == 0 {
                stem + seq!['.', 'j', 'p', 'g']
            } else {
                stem + seq!['_'] + decimal(attempt) + seq!['.', 'j', 'p', 'g']
            };
            output_candidate(original, output_folder, attempt) == path_join(dir, name)
        }),
{
}

/// A source goes to ffmpeg exactly when its extension, lowercased, is
/// "heic" or "heif".
pub proof fn lemma_heic_by_lowercased_extension(path: Seq<char>)
    ensures
        heic_source(path) <==> (path_extension(path) is Some && (lowercase(path_extension(path).unwrap())
            == seq!['h', 'e', 'i', 'c'] || lowercase(path_extension(path).unwrap()) == seq!['h', 'e', 'i', 'f'])),
{
}

/// The letter case of the extension does not change the converter: two
/// paths whose extensions lowercase alike go to the same one.
pub proof fn lemma_heic_ignores_case(p1: Seq<char>, p2: Seq<char>)
    requires
        path_extension(p1) is Some,
        path_extension(p2) is Some,
        lowercase(path_extension(p1).unwrap()) == lowercase(path_extension(p2).unwrap()),
    ensures
        heic_source(p1) == heic_source(p2),
{
}

/// ffmpeg's scale is the quality mapped linearly from 0..100 onto 31..2,
/// rounded to the nearest integer (halves up): 100 times it lies within
/// half a step of 3100 - 29 * quality. Past 100 the scale stays at 2.
pub proof fn lemma_quality_scale_rounds(quality: nat)
    ensures
        quality <= 100 ==> 100 * quality_scale(quality) <= 3100 - 29 * quality + 50 && 3100 - 29 * quality + 50
            < 100 * quality_scale(quality) + 100,
        quality > 100 ==> quality_scale(quality) == 2,
{
}

/// The ffmpeg run reads `source`, writes `output`, and asks for the scale
/// of the quality passed in: the argument after "-q:v" is its decimal text,
/// so qualities with different scales give different argument lists.
pub proof fn lemma_ffmpeg_arguments_carry_quality(source: Seq<char>, output: Seq<char>, q1: nat, q2: nat)
    ensures
        ffmpeg_argument_texts(source, output, q1).len() == 10,
        ffmpeg_argument_texts(source, output, q1)[0] == seq!['-', 'v'],
        ffmpeg_argument_texts(source, output, q1)[1] == seq!['e', 'r', 'r', 'o', 'r'],
        ffmpeg_argument_texts(source, output, q1)[2] == seq!['-', 'y'],
        ffmpeg_argument_texts(source, output, q1)[3] == seq!['-', 'i'],
        ffmpeg_argument_texts(source, output, q1)[4] == source,
        ffmpeg_argument_texts(source, output, q1)[5] == seq!['-', 'u', 'p', 'd', 'a', 't', 'e'],
        ffmpeg_argument_texts(source, output, q1)[6] == seq!['1'],
        ffmpeg_argument_texts(source, output, q1)[7] == seq!['-', 'q', ':', 'v'],
        ffmpeg_argument_texts(source, output, q1)[8] == decimal(quality_scale(q1)),
        ffmpeg_argument_texts(source, output, q1)[9] == output,
        quality_scale(q1) != quality_scale(q2) ==> ffmpeg_argument_texts(source, output, q1)
            != ffmpeg_argument_texts(source, output, q2),
{
    if quality_scale(q1) != quality_scale(q2) && ffmpeg_argument_texts(source, output, q1)
        == ffmpeg_argument_texts(source, output, q2) {
        assert(ffmpeg_argument_texts(source, output, q1)[8] == ffmpeg_argument_texts(source, output, q2)[8]);
        crate::text::lemma_decimal_injective(quality_scale(q1), quality_scale(q2));
    }
}

/// Counting successes adds up over the parts of a list of results.
pub proof fn lemma_succeeded_count_adds(a: Seq<ConversionResult>, b: Seq<ConversionResult>)
    ensures
        succeeded_count(a + b) == succeeded_count(a) + succeeded_count(b),
    decreases b.len(),
{
    if b.len() == 0 {
        assert(a + b =~= a);
    } else {
        lemma_succeeded_count_adds(a, b.drop_last());
        assert((a + b).drop_last() =~= a + b.drop_last());
        assert((a + b).last() == b.last());
    }
}

/// One result counts as a success exactly when its flag says so; so a run
/// in which every result succeeded counts them all, and one in which none
/// did counts none.
pub proof fn lemma_succeeded_count_flags(r: ConversionResult, results: Seq<ConversionResult>)
    ensures
        succeeded_count(seq![r]) == if r.success { 1nat } else { 0nat },
        succeeded_count(results) <= results.len(),
        (forall|i: int| 0 <= i < results.len() ==> #[trigger] results[i].success) ==> succeeded_count(results)
            == results.len(),
        (forall|i: int| 0 <= i < results.len() ==> !#[trigger] results[i].success) ==> succeeded_count(results)
            == 0,
    decreases results.len(),
{
    assert(seq![r].drop_last() =~= Seq::<ConversionResult>::empty());
    assert(seq![r].last() == r);
    assert(succeeded_count(Seq::<ConversionResult>::empty()) == 0);
    if results.len() > 0 {
        let front = results.drop_last();
        lemma_succeeded_count_flags(r, front);
        if forall|i: int| 0 <= i < results.len() ==> #[trigger] results[i].success {
            assert forall|i: int| 0 <= i < front.len() implies #[trigger] front[i].success by {
                assert(front[i] == results[i]);
            }
        }
        if forall|i: int| 0 <= i < results.len() ==> !#[trigger] results[i].success {
            assert forall|i: int| 0 <= i < front.len() implies !#[trigger] front[i].success by {
                assert(front[i] == results[i]);
            }
        }
    }
}

} // verus!
