//! What the simulator prints: a report for each run, a comparison of several,
//! and one line of comma-separated values per frame. Everything here is lines of
//! text; whoever prints them ends each with a newline.

use crate::fp::{F32, F64};
use crate::level::{rung, spec_rung};
use crate::signals::SignalKind;
use crate::sim::harness::{
    delivered, is_mode, mode, rejected_frames, rejection, spec_rejection, Config, FrameRecord,
    Judgement, RunReport,
};
use crate::sim::scenario::Scenario;
use crate::text::{
    decimal32, decimal64, digits, join, joined, left, push_decimal32, push_decimal64, push_left,
    push_number, push_right, right, spec_words, spec_wrap, views, words, wrap,
};
use vstd::prelude::*;
use vstd::string::*;

verus! {

/// The most columns a timeline takes.
pub const TIMELINE_COLUMNS: usize = 78;

/// The width a scenario's description is wrapped to.
pub const BLURB_WIDTH: usize = 76;

/// How many rejections a report lists.
pub const LISTED: usize = 6;

/// How many of the first `n` frames were on a rung.
pub open spec fn frames_on(frames: Seq<FrameRecord>, level: int, n: nat) -> nat
    decreases n,
{
    if n == 0 {
        0
    } else {
        let f = frames[n - 1];
        let bin = if f.level < 7 {
            f.level as int
        } else {
            7
        };
        let here: nat = if bin == level {
            1
        } else {
            0
        };
        frames_on(frames, level, (n - 1) as nat) + here
    }
}

/// How many frames were on each rung.
pub open spec fn rung_counts(frames: Seq<FrameRecord>) -> Seq<u64> {
    Seq::new(8, |l: int| frames_on(frames, l, frames.len()) as u64)
}

/// The rung most of the frames were on, the higher one where several are level.
pub open spec fn modal_rung(frames: Seq<FrameRecord>) -> int {
    choose|m: int| is_mode(rung_counts(frames), m)
}

/// Whether any of the frames was rejected.
pub open spec fn any_rejected(frames: Seq<FrameRecord>) -> bool {
    exists|k: int| 0 <= k < frames.len() && spec_rejection(#[trigger] frames[k])
}

/// How many frames stand behind one column of a timeline: as few as fit them
/// into its columns.
pub open spec fn frames_per_column(n: nat) -> nat {
    let columns: nat = if n < TIMELINE_COLUMNS {
        n
    } else {
        TIMELINE_COLUMNS as nat
    };
    if n == 0 {
        0
    } else {
        (n + columns - 1) as nat / columns
    }
}

/// Where the column that starts at a frame ends.
pub open spec fn column_end(n: nat, per: nat, lo: nat) -> nat {
    if lo + per < n {
        lo + per
    } else {
        n
    }
}

/// The strip of rungs from a frame on, one digit for each column.
pub open spec fn rung_strip(frames: Seq<FrameRecord>, per: nat, lo: nat) -> Seq<char>
    decreases frames.len() - lo,
{
    if per == 0 || lo >= frames.len() {
        seq![]
    } else {
        let hi = column_end(frames.len(), per, lo);
        digits(modal_rung(frames.subrange(lo as int, hi as int)) as nat) + rung_strip(
            frames,
            per,
            hi,
        )
    }
}

/// The strip of rejections from a frame on, one mark for each column.
pub open spec fn drop_strip(frames: Seq<FrameRecord>, per: nat, lo: nat) -> Seq<char>
    decreases frames.len() - lo,
{
    if per == 0 || lo >= frames.len() {
        seq![]
    } else {
        let hi = column_end(frames.len(), per, lo);
        (if any_rejected(frames.subrange(lo as int, hi as int)) {
            "!"@
        } else {
            "·"@
        }) + drop_strip(frames, per, hi)
    }
}

proof fn lemma_one_mode(counts: Seq<u64>, a: int, b: int)
    requires
        is_mode(counts, a),
        is_mode(counts, b),
    ensures
        a == b,
{
    if a < b {
        assert(counts[b] < counts[a]);
    } else if b < a {
        assert(counts[a] < counts[b]);
    }
}

/// The rung most of a stretch of frames were on, and whether any was rejected.
fn column(frames: &Vec<FrameRecord>, lo: usize, hi: usize) -> (r: (u8, bool))
    requires
        lo <= hi <= frames.len(),
    ensures
        r.0 == modal_rung(frames@.subrange(lo as int, hi as int)),
        r.1 == any_rejected(frames@.subrange(lo as int, hi as int)),
{
    let ghost part = frames@.subrange(lo as int, hi as int);
    let mut counts: [u64; 8] = [0; 8];
    let mut rejected: bool = false;
    let mut k: usize = lo;
    while k < hi
        invariant
            lo <= k <= hi <= frames.len(),
            part == frames@.subrange(lo as int, hi as int),
            forall|l: int|
                0 <= l < 8 ==> #[trigger] counts@[l] == frames_on(part, l, (k - lo) as nat),
            forall|l: int| 0 <= l < 8 ==> #[trigger] counts@[l] <= k - lo,
            rejected == exists|j: int| 0 <= j < k - lo && spec_rejection(#[trigger] part[j]),
        decreases hi - k,
    {
        let f = frames[k];
        let ghost before = counts@;
        assert(part[k - lo] == f);
        let bin: usize = if f.level < 7 {
            f.level as usize
        } else {
            7
        };
        assert(counts@[bin as int] <= k - lo);
        counts[bin] = counts[bin] + 1;
        if rejection(&f) {
            rejected = true;
        }
        proof {
            assert(counts@ == before.update(bin as int, (before[bin as int] + 1) as u64));
            assert forall|l: int| 0 <= l < 8 implies #[trigger] counts@[l] == frames_on(
                part,
                l,
                (k + 1 - lo) as nat,
            ) && counts@[l] <= k + 1 - lo by {
                assert(before[l] == frames_on(part, l, (k - lo) as nat));
                assert(before[l] <= k - lo);
            }
        }
        k = k + 1;
    }
    let m: u8 = mode(&counts);
    proof {
        assert forall|l: int| 0 <= l < 8 implies counts@[l] == rung_counts(part)[l] by {
            assert(counts@[l] == frames_on(part, l, (k - lo) as nat));
        }
        assert(counts@ =~= rung_counts(part));
        assert(is_mode(rung_counts(part), m as int));
        lemma_one_mode(rung_counts(part), m as int, modal_rung(part));
    }
    (m, rejected)
}

fn per_column(n: usize) -> (per: usize)
    ensures
        per == frames_per_column(n as nat),
{
    if n == 0 {
        return 0;
    }
    let columns: usize = if n < TIMELINE_COLUMNS {
        n
    } else {
        TIMELINE_COLUMNS
    };
    let extra: usize = if n % columns == 0 {
        0
    } else {
        1
    };
    proof {
        let c = columns as int;
        let q = n as int / c;
        let r = n as int % c;
        vstd::arithmetic::div_mod::lemma_fundamental_div_mod(n as int, c);
        assert(n == c * q + r);
        if r == 0 {
            assert(n + c - 1 == q * c + (c - 1)) by (nonlinear_arith)
                requires
                    n == c * q + r,
                    r == 0,
            ;
            vstd::arithmetic::div_mod::lemma_fundamental_div_mod_converse(n + c - 1, c, q, c - 1);
        } else {
            assert(n + c - 1 == (q + 1) * c + (r - 1)) by (nonlinear_arith)
                requires
                    n == c * q + r,
            ;
            vstd::arithmetic::div_mod::lemma_fundamental_div_mod_converse(
                n + c - 1,
                c,
                q + 1,
                r - 1,
            );
        }
        assert(q <= n) by (nonlinear_arith)
            requires
                n == c * q + r,
                c >= 1,
                r >= 0,
                q >= 0,
        ;
        assert(r != 0 ==> q < n) by (nonlinear_arith)
            requires
                n == c * q + r,
                c >= 1,
                r >= 0,
                q >= 0,
        ;
    }
    n / columns + extra
}

/// One column per bucket of frames: the modal rung, and whether anything was
/// rejected in that bucket.
pub fn timeline(r: &RunReport) -> (strips: (String, String))
    ensures
        ({
            let per = frames_per_column(r.frames@.len());
            &&& strips.0@ == rung_strip(r.frames@, per, 0)
            &&& strips.1@ == drop_strip(r.frames@, per, 0)
        }),
{
    let n: usize = r.frames.len();
    let per: usize = per_column(n);
    let mut rungs = String::new();
    let mut drops = String::new();
    let mut lo: usize = 0;
    proof {
        if n > 0 {
            let c: nat = if n < TIMELINE_COLUMNS {
                n as nat
            } else {
                TIMELINE_COLUMNS as nat
            };
            assert((n + c - 1) / (c as int) >= 1) by (nonlinear_arith)
                requires
                    n >= 1,
                    c >= 1,
                    n >= c,
            ;
        }
        assert(rungs@ + rung_strip(r.frames@, per as nat, 0) =~= rung_strip(
            r.frames@,
            per as nat,
            0,
        ));
        assert(drops@ + drop_strip(r.frames@, per as nat, 0) =~= drop_strip(
            r.frames@,
            per as nat,
            0,
        ));
    }
    while lo < n
        invariant
            lo <= n,
            n == r.frames.len(),
            n > 0 ==> per > 0,
            rungs@ + rung_strip(r.frames@, per as nat, lo as nat) == rung_strip(
                r.frames@,
                per as nat,
                0,
            ),
            drops@ + drop_strip(r.frames@, per as nat, lo as nat) == drop_strip(
                r.frames@,
                per as nat,
                0,
            ),
        decreases n - lo,
    {
        let hi: usize = if n - lo <= per {
            n
        } else {
            lo + per
        };
        let (modal, rejected) = column(&r.frames, lo, hi);
        let ghost before = (rungs@, drops@);
        push_number(&mut rungs, modal as u64);
        if rejected {
            drops.append("!");
        } else {
            drops.append("·");
        }
        proof {
            let rest = rung_strip(r.frames@, per as nat, hi as nat);
            assert(rungs@ + rest =~= before.0 + (digits(modal as nat) + rest));
            let rest2 = drop_strip(r.frames@, per as nat, hi as nat);
            let mark = if rejected {
                "!"@
            } else {
                "·"@
            };
            assert(drops@ + rest2 =~= before.1 + (mark + rest2));
        }
        lo = hi;
    }
    proof {
        assert(rungs@ =~= rungs@ + rung_strip(r.frames@, per as nat, lo as nat));
        assert(drops@ =~= drops@ + drop_strip(r.frames@, per as nat, lo as nat));
    }
    (rungs, drops)
}

/// One rung's share of the frames.
pub open spec fn share_text(r: &RunReport, level: int) -> Seq<char> {
    let n = r.frames@.len();
    let total = F32::from_u64(
        if n == 0 {
            1
        } else {
            n as u64
        },
    );
    let share = F32::from_u64(r.telemetry.frames_at_level[level]) / total * F32::ratio(100, 1);
    spec_rung(level as u8).name@ + " "@ + decimal32(share, 0) + "%"@
}

/// The shares of those of the first `n` rungs that saw any frame.
pub open spec fn shares(r: &RunReport, n: nat) -> Seq<Seq<char>>
    decreases n,
{
    if n == 0 {
        seq![]
    } else {
        let before = shares(r, (n - 1) as nat);
        if r.telemetry.frames_at_level[n - 1] == 0 {
            before
        } else {
            before.push(share_text(r, n - 1))
        }
    }
}

/// How the frames spread over the rungs.
pub open spec fn histogram_text(r: &RunReport) -> Seq<char> {
    let parts = shares(r, 7);
    if parts.len() == 0 {
        "—"@
    } else {
        joined(parts, " · "@)
    }
}

fn share(r: &RunReport, level: u8) -> (s: String)
    requires
        level < 7,
    ensures
        s@ == share_text(r, level as int),
{
    let n: usize = r.frames.len();
    let total = F32::from_u64(
        if n == 0 {
            1
        } else {
            n as u64
        },
    );
    let part = F32::from_u64(r.telemetry.frames_at_level[level as usize]) / total * F32::ratio(
        100,
        1,
    );
    let mut s = rung(level).name.to_owned();
    s.append(" ");
    push_decimal32(&mut s, part, 0);
    s.append("%");
    s
}

/// How the frames spread over the rungs.
pub fn rung_histogram(r: &RunReport) -> (s: String)
    ensures
        s@ == histogram_text(r),
{
    let mut parts: Vec<String> = Vec::new();
    let mut level: u8 = 0;
    assert(views(parts@) =~= shares(r, 0));
    while level < 7
        invariant
            level <= 7,
            views(parts@) == shares(r, level as nat),
        decreases 7 - level,
    {
        if r.telemetry.frames_at_level[level as usize] != 0 {
            let ghost before = parts@;
            let one = share(r, level);
            let ghost text = one@;
            parts.push(one);
            assert(views(parts@) =~= views(before).push(text));
        }
        level = level + 1;
    }
    if parts.len() == 0 {
        "—".to_owned()
    } else {
        join(&parts, " · ")
    }
}

/// The name of a rejection's cause, or a stand-in where there is none.
pub open spec fn cause_text(cause: Option<SignalKind>, otherwise: Seq<char>) -> Seq<char> {
    match cause {
        Some(k) => k.spec_name()@,
        None => otherwise,
    }
}

fn cause_name(cause: Option<SignalKind>, otherwise: &'static str) -> (s: &'static str)
    ensures
        s@ == cause_text(cause, otherwise@),
{
    match cause {
        Some(k) => k.name(),
        None => otherwise,
    }
}

/// One line of the list of rejections.
pub open spec fn rejection_text(f: FrameRecord) -> Seq<char> {
    "    "@ + right(digits(f.index as nat), 5) + "  "@ + left(spec_rung(f.level).name@, 22) + " "@
        + right(decimal32(f.confidence, 2), 5) + "  "@ + cause_text(f.dominant, "-"@) + (
    if f.scene_cut {
        " (scene cut)"@
    } else {
        seq![]
    })
}

fn rejection_line(f: &FrameRecord) -> (s: String)
    ensures
        s@ == rejection_text(*f),
{
    let mut index = String::new();
    push_number(&mut index, f.index as u64);
    assert(index@ =~= digits(f.index as nat));
    let mut confidence = String::new();
    push_decimal32(&mut confidence, f.confidence, 2);
    assert(confidence@ =~= decimal32(f.confidence, 2));
    let mut s = "    ".to_owned();
    push_right(&mut s, index.as_str(), 5);
    s.append("  ");
    push_left(&mut s, rung(f.level).name, 22);
    s.append(" ");
    push_right(&mut s, confidence.as_str(), 5);
    s.append("  ");
    s.append(cause_name(f.dominant, "-"));
    if f.scene_cut {
        s.append(" (scene cut)");
    }
    assert(s@ =~= rejection_text(*f));
    s
}

/// The list of the first rejections; nothing where there are none.
pub open spec fn rejection_lines(frames: Seq<FrameRecord>) -> Seq<Seq<char>> {
    let all = rejected_frames(frames, frames.len());
    let listed: nat = if all.len() < LISTED {
        all.len()
    } else {
        LISTED as nat
    };
    if all.len() == 0 {
        seq![]
    } else {
        seq!["  first rejections"@, "    frame  rung                    conf  cause"@] + Seq::new(
            listed,
            |i: int| rejection_text(all[i]),
        ) + (if all.len() > LISTED {
            seq!["    … "@ + digits((all.len() - LISTED) as nat) + " more"@]
        } else {
            seq![]
        }) + seq![seq![]]
    }
}

/// Adds a line.
fn put(lines: &mut Vec<String>, line: String)
    ensures
        views(final(lines)@) == views(old(lines)@).push(line@),
{
    lines.push(line);
    assert(views(lines@) =~= views(old(lines)@).push(line@));
}

fn put_rejections(lines: &mut Vec<String>, r: &RunReport)
    ensures
        views(final(lines)@) == views(old(lines)@) + rejection_lines(r.frames@),
{
    let all = r.rejections();
    if all.len() == 0 {
        assert(views(lines@) =~= views(old(lines)@) + rejection_lines(r.frames@));
        return;
    }
    put(lines, "  first rejections".to_owned());
    put(lines, "    frame  rung                    conf  cause".to_owned());
    let ghost base = views(lines@);
    let listed: usize = if all.len() < LISTED {
        all.len()
    } else {
        LISTED
    };
    let mut i: usize = 0;
    assert(base =~= base + Seq::new(0, |i: int| rejection_text(all@[i])));
    while i < listed
        invariant
            i <= listed <= all.len(),
            views(lines@) == base + Seq::new(i as nat, |i: int| rejection_text(all@[i])),
        decreases listed - i,
    {
        put(lines, rejection_line(&all[i]));
        assert(views(lines@) =~= base + Seq::new((i + 1) as nat, |i: int| rejection_text(all@[i])));
        i = i + 1;
    }
    if all.len() > LISTED {
        let mut more = "    … ".to_owned();
        push_number(&mut more, (all.len() - LISTED) as u64);
        more.append(" more");
        put(lines, more);
    }
    put(lines, String::new());
    assert(views(lines@) =~= views(old(lines)@) + rejection_lines(r.frames@));
}

/// How many of the first `n` frames were not judged.
pub open spec fn not_judged(frames: Seq<FrameRecord>, n: nat) -> nat
    decreases n,
{
    if n == 0 {
        0
    } else {
        not_judged(frames, (n - 1) as nat) + if frames[n - 1].judgement == Judgement::NotJudged {
            1nat
        } else {
            0
        }
    }
}

fn count_not_judged(frames: &Vec<FrameRecord>) -> (n: usize)
    ensures
        n == not_judged(frames@, frames@.len()),
{
    let mut n: usize = 0;
    let mut k: usize = 0;
    while k < frames.len()
        invariant
            n <= k <= frames.len(),
            n == not_judged(frames@, k as nat),
        decreases frames.len() - k,
    {
        if frames[k].judgement == Judgement::NotJudged {
            n = n + 1;
        }
        k = k + 1;
    }
    n
}

/// The line on cost.
pub open spec fn cost_text(r: &RunReport) -> Seq<char> {
    "    cost              "@ + decimal32(r.telemetry.mean_relative_cost(), 2) + "x native  ("@
        + decimal64(r.mean_frame_ns() / F64::from_u32(1_000_000), 1) + " ms mean, "@ + decimal32(
        F32::ratio(1000, 1) / r.config.target_fps,
        0,
    ) + " ms target)"@
}

/// The line on rejections.
pub open spec fn rejected_text(r: &RunReport, worst: Option<SignalKind>) -> Seq<char> {
    "    rejected          "@ + decimal32(r.telemetry.discard_rate() * F32::ratio(100, 1), 1) + "%"@
        + (match worst {
        Some(k) => "  (mostly "@ + k.spec_name()@ + ")"@,
        None => seq![],
    })
}

/// The outcome of a run.
pub open spec fn result_lines(r: &RunReport, worst: Option<SignalKind>) -> Seq<Seq<char>> {
    let skipped = not_judged(r.frames@, r.frames@.len());
    seq![
        "  result"@,
        "    frames            "@ + digits(r.frames@.len()),
        "    boost             "@ + decimal32(r.telemetry.boost_ratio(), 2)
            + "x presented per rendered"@,
        cost_text(r),
        "    delivered         "@ + decimal64(r.effective_fps(), 1) + " fps to the display"@,
        rejected_text(r, worst),
    ] + (if r.telemetry.scene_cuts > 0 {
        seq!["    scene cuts        "@ + digits(r.telemetry.scene_cuts as nat)]
    } else {
        seq![]
    }) + (if skipped > 0 {
        seq![
            "    not judged        "@ + digits(skipped)
                + "  (history reset on a resolution change)"@,
        ]
    } else {
        seq![]
    }) + seq!["    time on rungs     "@ + histogram_text(r), seq![]]
}

fn cost_line(r: &RunReport) -> (s: String)
    ensures
        s@ == cost_text(r),
{
    let mut s = "    cost              ".to_owned();
    push_decimal32(&mut s, r.telemetry.mean_relative_cost(), 2);
    s.append("x native  (");
    push_decimal64(&mut s, r.mean_frame_ns() / F64::from_u32(1_000_000), 1);
    s.append(" ms mean, ");
    push_decimal32(&mut s, F32::ratio(1000, 1) / r.config.target_fps, 0);
    s.append(" ms target)");
    s
}

fn rejected_line(r: &RunReport, worst: Option<SignalKind>) -> (s: String)
    requires
        r.telemetry.wf(),
    ensures
        s@ == rejected_text(r, worst),
{
    let mut s = "    rejected          ".to_owned();
    push_decimal32(&mut s, r.telemetry.discard_rate() * F32::ratio(100, 1), 1);
    s.append("%");
    match worst {
        Some(k) => {
            s.append("  (mostly ");
            s.append(k.name());
            s.append(")");
        },
        None => {},
    }
    assert(s@ =~= rejected_text(r, worst));
    s
}

fn put_result(lines: &mut Vec<String>, r: &RunReport, worst: Option<SignalKind>)
    requires
        r.telemetry.wf(),
        delivered(r.frames@, r.frames@.len()) <= u32::MAX,
    ensures
        views(final(lines)@) == views(old(lines)@) + result_lines(r, worst),
{
    put(lines, "  result".to_owned());
    let mut frames = "    frames            ".to_owned();
    push_number(&mut frames, r.frames.len() as u64);
    put(lines, frames);
    let mut boost = "    boost             ".to_owned();
    push_decimal32(&mut boost, r.telemetry.boost_ratio(), 2);
    boost.append("x presented per rendered");
    put(lines, boost);
    put(lines, cost_line(r));
    let mut fps = "    delivered         ".to_owned();
    push_decimal64(&mut fps, r.effective_fps(), 1);
    fps.append(" fps to the display");
    put(lines, fps);
    put(lines, rejected_line(r, worst));
    if r.telemetry.scene_cuts > 0 {
        let mut cuts = "    scene cuts        ".to_owned();
        push_number(&mut cuts, r.telemetry.scene_cuts);
        put(lines, cuts);
    }
    let skipped: usize = count_not_judged(&r.frames);
    if skipped > 0 {
        let mut s = "    not judged        ".to_owned();
        push_number(&mut s, skipped as u64);
        s.append("  (history reset on a resolution change)");
        put(lines, s);
    }
    let mut spread = "    time on rungs     ".to_owned();
    spread.append(rung_histogram(r).as_str());
    put(lines, spread);
    put(lines, String::new());
    assert(views(lines@) =~= views(old(lines)@) + result_lines(r, worst));
}

/// What a report starts with: the scenario, described.
pub open spec fn opening_lines(scenario: &Scenario) -> Seq<Seq<char>> {
    let blurb = spec_wrap(joined(spec_words(scenario.blurb@), " "@), BLURB_WIDTH);
    seq!["▸ "@ + scenario.name@] + Seq::new(blurb.len(), |i: int| "  "@ + blurb[i]) + seq![seq![]]
}

/// Two aligned strips: the rung over time, and where frames were rejected.
pub open spec fn strip_lines(r: &RunReport) -> Seq<Seq<char>> {
    let n = r.frames@.len();
    let per = frames_per_column(n);
    let shown: nat = if n == 0 {
        1
    } else {
        (n + TIMELINE_COLUMNS - 1) as nat / TIMELINE_COLUMNS as nat
    };
    seq![
        "  rung   "@ + rung_strip(r.frames@, per, 0),
        "  reject "@ + drop_strip(r.frames@, per, 0),
        "         (one column ≈ "@ + digits(shown)
            + " frames; digit = rung index, ! = frame(s) rejected)"@,
        seq![],
    ]
}

/// The whole report on a run, given the signal to blame.
pub open spec fn report_text(
    scenario: &Scenario,
    r: &RunReport,
    worst: Option<SignalKind>,
) -> Seq<Seq<char>> {
    opening_lines(scenario) + strip_lines(r) + rejection_lines(r.frames@) + result_lines(r, worst)
}

fn put_opening(lines: &mut Vec<String>, scenario: &Scenario)
    ensures
        views(final(lines)@) == views(old(lines)@) + opening_lines(scenario),
{
    let mut title = "▸ ".to_owned();
    title.append(scenario.name);
    put(lines, title);
    let ghost base = views(lines@);
    let blurb = wrap(join(&words(scenario.blurb), " ").as_str(), BLURB_WIDTH);
    let ghost texts = views(blurb@);
    let mut i: usize = 0;
    assert(base =~= base + Seq::new(0, |i: int| "  "@ + texts[i]));
    while i < blurb.len()
        invariant
            i <= blurb.len(),
            texts == views(blurb@),
            views(lines@) == base + Seq::new(i as nat, |i: int| "  "@ + texts[i]),
        decreases blurb.len() - i,
    {
        let mut line = "  ".to_owned();
        line.append(blurb[i].as_str());
        put(lines, line);
        assert(views(lines@) =~= base + Seq::new((i + 1) as nat, |i: int| "  "@ + texts[i]));
        i = i + 1;
    }
    put(lines, String::new());
    assert(views(lines@) =~= views(old(lines)@) + opening_lines(scenario));
}

fn put_strips(lines: &mut Vec<String>, r: &RunReport)
    ensures
        views(final(lines)@) == views(old(lines)@) + strip_lines(r),
{
    let (rungs, drops) = timeline(r);
    let n: usize = r.frames.len();
    let shown: usize = if n < TIMELINE_COLUMNS {
        1
    } else {
        per_column(n)
    };
    let mut a = "  rung   ".to_owned();
    a.append(rungs.as_str());
    put(lines, a);
    let mut b = "  reject ".to_owned();
    b.append(drops.as_str());
    put(lines, b);
    let mut c = "         (one column ≈ ".to_owned();
    push_number(&mut c, shown as u64);
    c.append(" frames; digit = rung index, ! = frame(s) rejected)");
    put(lines, c);
    put(lines, String::new());
    assert(views(lines@) =~= views(old(lines)@) + strip_lines(r));
}

/// The report on one run.
pub fn report_lines(scenario: &Scenario, r: &RunReport) -> (lines: Vec<String>)
    requires
        r.telemetry.wf(),
        delivered(r.frames@, r.frames@.len()) <= u32::MAX,
    ensures
        exists|worst: Option<SignalKind>|
            r.telemetry.is_worst(worst) && views(lines@) == #[trigger] report_text(
                scenario,
                r,
                worst,
            ),
{
    let worst = r.telemetry.worst_signal();
    let mut lines: Vec<String> = Vec::new();
    assert(views(lines@) =~= seq![]);
    put_opening(&mut lines, scenario);
    put_strips(&mut lines, r);
    put_rejections(&mut lines, r);
    put_result(&mut lines, r, worst);
    assert(views(lines@) =~= report_text(scenario, r, worst));
    lines
}

/// What precedes the reports.
pub open spec fn heading_text(cfg: &Config) -> Seq<char> {
    "FrameBoost simulator — "@ + digits(cfg.output_width as nat) + "x"@ + digits(
        cfg.output_height as nat,
    ) + " output, "@ + decimal32(cfg.target_fps, 0) + " fps target, "@ + decimal64(
        F64::from_u64(cfg.native_frame_ns) / F64::from_u32(1_000_000),
        1,
    ) + " ms native frame"@
}

/// What precedes the reports.
pub fn heading(cfg: &Config) -> (s: String)
    ensures
        s@ == heading_text(cfg),
{
    let mut s = "FrameBoost simulator — ".to_owned();
    push_number(&mut s, cfg.output_width as u64);
    s.append("x");
    push_number(&mut s, cfg.output_height as u64);
    s.append(" output, ");
    push_decimal32(&mut s, cfg.target_fps, 0);
    s.append(" fps target, ");
    push_decimal64(&mut s, F64::from_u64(cfg.native_frame_ns) / F64::from_u32(1_000_000), 1);
    s.append(" ms native frame");
    s
}

/// One line of a comparison.
pub open spec fn comparison_text(r: RunReport) -> Seq<char> {
    "  "@ + left(r.scenario@, 16) + right(decimal32(r.telemetry.boost_ratio(), 2), 6) + "x"@ + right(
        decimal32(r.telemetry.mean_relative_cost(), 2),
        8,
    ) + "x"@ + right(decimal32(r.telemetry.discard_rate() * F32::ratio(100, 1), 1), 9) + "%"@
        + right(decimal64(r.effective_fps(), 1), 8) + " fps"@
}

/// A comparison of several runs.
pub open spec fn comparison_lines_text(reports: Seq<RunReport>) -> Seq<Seq<char>> {
    seq![
        "summary"@,
        "  "@ + left("scenario"@, 16) + right("boost"@, 7) + right("cost"@, 9) + right(
            "rejected"@,
            10,
        ) + right("delivered"@, 11),
    ] + Seq::new(reports.len(), |i: int| comparison_text(reports[i])) + seq![seq![]]
}

fn comparison_line(r: &RunReport) -> (s: String)
    requires
        r.telemetry.wf(),
        delivered(r.frames@, r.frames@.len()) <= u32::MAX,
    ensures
        s@ == comparison_text(*r),
{
    let mut boost = String::new();
    push_decimal32(&mut boost, r.telemetry.boost_ratio(), 2);
    assert(boost@ =~= decimal32(r.telemetry.boost_ratio(), 2));
    let mut cost = String::new();
    push_decimal32(&mut cost, r.telemetry.mean_relative_cost(), 2);
    assert(cost@ =~= decimal32(r.telemetry.mean_relative_cost(), 2));
    let mut rejected = String::new();
    push_decimal32(&mut rejected, r.telemetry.discard_rate() * F32::ratio(100, 1), 1);
    assert(rejected@ =~= decimal32(r.telemetry.discard_rate() * F32::ratio(100, 1), 1));
    let mut fps = String::new();
    push_decimal64(&mut fps, r.effective_fps(), 1);
    assert(fps@ =~= decimal64(r.effective_fps(), 1));
    let mut s = "  ".to_owned();
    push_left(&mut s, r.scenario, 16);
    push_right(&mut s, boost.as_str(), 6);
    s.append("x");
    push_right(&mut s, cost.as_str(), 8);
    s.append("x");
    push_right(&mut s, rejected.as_str(), 9);
    s.append("%");
    push_right(&mut s, fps.as_str(), 8);
    s.append(" fps");
    s
}

/// A comparison of several runs.
pub fn comparison_lines(reports: &Vec<RunReport>) -> (lines: Vec<String>)
    requires
        forall|i: int|
            0 <= i < reports.len() ==> (#[trigger] reports[i]).telemetry.wf() && delivered(
                reports[i].frames@,
                reports[i].frames@.len(),
            ) <= u32::MAX,
    ensures
        views(lines@) == comparison_lines_text(reports@),
{
    let mut lines: Vec<String> = Vec::new();
    assert(views(lines@) =~= seq![]);
    put(&mut lines, "summary".to_owned());
    let mut head = "  ".to_owned();
    push_left(&mut head, "scenario", 16);
    push_right(&mut head, "boost", 7);
    push_right(&mut head, "cost", 9);
    push_right(&mut head, "rejected", 10);
    push_right(&mut head, "delivered", 11);
    put(&mut lines, head);
    let ghost base = views(lines@);
    let mut i: usize = 0;
    assert(base =~= base + Seq::new(0, |i: int| comparison_text(reports@[i])));
    while i < reports.len()
        invariant
            i <= reports.len(),
            forall|i: int|
                0 <= i < reports.len() ==> (#[trigger] reports[i]).telemetry.wf() && delivered(
                    reports[i].frames@,
                    reports[i].frames@.len(),
                ) <= u32::MAX,
            views(lines@) == base + Seq::new(i as nat, |i: int| comparison_text(reports@[i])),
        decreases reports.len() - i,
    {
        put(&mut lines, comparison_line(&reports[i]));
        assert(views(lines@) =~= base + Seq::new(
            (i + 1) as nat,
            |i: int| comparison_text(reports@[i]),
        ));
        i = i + 1;
    }
    put(&mut lines, String::new());
    assert(views(lines@) =~= comparison_lines_text(reports@));
    lines
}

impl Judgement {
    /// The name of a judgement.
    pub open spec fn spec_name(self) -> &'static str {
        match self {
            Judgement::Presented => "Presented",
            Judgement::Discarded => "Discarded",
            Judgement::Degraded => "Degraded",
            Judgement::NotJudged => "NotJudged",
        }
    }

    /// The name of a judgement.
    #[verifier::when_used_as_spec(spec_name)]
    pub fn name(self) -> (s: &'static str)
        ensures
            s == self.spec_name(),
    {
        match self {
            Judgement::Presented => "Presented",
            Judgement::Discarded => "Discarded",
            Judgement::Degraded => "Degraded",
            Judgement::NotJudged => "NotJudged",
        }
    }
}

/// The first half of a frame's values: what was decided.
pub open spec fn decided_text(scenario: Seq<char>, f: FrameRecord) -> Seq<char> {
    scenario + ","@ + digits(f.index as nat) + ","@ + digits(f.level as nat) + ","@ + digits(
        f.ceiling as nat,
    ) + ","@ + decimal32(f.confidence, 4) + ","@ + f.judgement.name()@ + ","@ + cause_text(
        f.dominant,
        seq![],
    ) + ","@ + (if f.scene_cut {
        "true"@
    } else {
        "false"@
    })
}

/// The second half: what was measured.
pub open spec fn measured_text(f: FrameRecord) -> Seq<char> {
    ","@ + decimal32(f.signals.disocclusion, 4) + ","@ + decimal32(f.signals.motion_residual, 4)
        + ","@ + decimal32(f.signals.luma_shift, 4) + ","@ + decimal32(f.signals.camera_motion, 4)
        + ","@ + decimal32(f.signals.depth_complexity, 4) + ","@ + decimal32(
        f.signals.pacing_instability,
        4,
    ) + ","@ + decimal64(F64::from_u64(f.frame_ns) / F64::from_u32(1_000_000), 3) + ","@ + digits(
        f.presented as nat,
    )
}

/// A run as comma-separated values, under a header where one is asked for.
pub open spec fn csv_text(r: &RunReport, with_header: bool) -> Seq<Seq<char>> {
    (if with_header {
        seq![
            "scenario,frame,level,ceiling,confidence,judgement,dominant,scene_cut,disocclusion,motion_residual,luma_shift,camera_motion,depth_complexity,pacing_instability,frame_ms,presented"@,
        ]
    } else {
        seq![]
    }) + Seq::new(
        r.frames@.len(),
        |i: int| decided_text(r.scenario@, r.frames@[i]) + measured_text(r.frames@[i]),
    )
}

fn decided(scenario: &str, f: &FrameRecord) -> (s: String)
    ensures
        s@ == decided_text(scenario@, *f),
{
    proof {
        reveal_strlit("");
        assert(""@ =~= seq![]);
    }
    let mut s = scenario.to_owned();
    s.append(",");
    push_number(&mut s, f.index as u64);
    s.append(",");
    push_number(&mut s, f.level as u64);
    s.append(",");
    push_number(&mut s, f.ceiling as u64);
    s.append(",");
    push_decimal32(&mut s, f.confidence, 4);
    s.append(",");
    s.append(f.judgement.name());
    s.append(",");
    s.append(cause_name(f.dominant, ""));
    s.append(",");
    if f.scene_cut {
        s.append("true");
    } else {
        s.append("false");
    }
    s
}

fn measured(f: &FrameRecord) -> (s: String)
    ensures
        s@ == measured_text(*f),
{
    let mut s = ",".to_owned();
    push_decimal32(&mut s, f.signals.disocclusion, 4);
    s.append(",");
    push_decimal32(&mut s, f.signals.motion_residual, 4);
    s.append(",");
    push_decimal32(&mut s, f.signals.luma_shift, 4);
    s.append(",");
    push_decimal32(&mut s, f.signals.camera_motion, 4);
    s.append(",");
    push_decimal32(&mut s, f.signals.depth_complexity, 4);
    s.append(",");
    push_decimal32(&mut s, f.signals.pacing_instability, 4);
    s.append(",");
    push_decimal64(&mut s, F64::from_u64(f.frame_ns) / F64::from_u32(1_000_000), 3);
    s.append(",");
    push_number(&mut s, f.presented as u64);
    s
}

/// A run as comma-separated values, under a header where one is asked for.
pub fn csv_lines(r: &RunReport, with_header: bool) -> (lines: Vec<String>)
    ensures
        views(lines@) == csv_text(r, with_header),
{
    let mut lines: Vec<String> = Vec::new();
    assert(views(lines@) =~= seq![]);
    if with_header {
        put(
            &mut lines,
            "scenario,frame,level,ceiling,confidence,judgement,dominant,scene_cut,disocclusion,motion_residual,luma_shift,camera_motion,depth_complexity,pacing_instability,frame_ms,presented".to_owned(),
        );
    }
    let ghost base = views(lines@);
    let ghost row = |i: int| decided_text(r.scenario@, r.frames@[i]) + measured_text(r.frames@[i]);
    let mut i: usize = 0;
    assert(base =~= base + Seq::new(0, row));
    while i < r.frames.len()
        invariant
            i <= r.frames.len(),
            row == (|i: int|
                decided_text(r.scenario@, r.frames@[i]) + measured_text(r.frames@[i])),
            views(lines@) == base + Seq::new(i as nat, row),
        decreases r.frames.len() - i,
    {
        let f = r.frames[i];
        let mut line = decided(r.scenario, &f);
        line.append(measured(&f).as_str());
        put(&mut lines, line);
        assert(views(lines@) =~= base + Seq::new((i + 1) as nat, row));
        i = i + 1;
    }
    assert(views(lines@) =~= csv_text(r, with_header));
    lines
}

} // verus!
