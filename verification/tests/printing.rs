//! What the simulator prints, and how it is asked.

use frameboost::fp::{F32, F64};
use frameboost::level::rung;
use frameboost::signals::{SignalKind, Signals};
use frameboost::sim::harness::{run, Config, FrameRecord, Judgement, RunReport};
use frameboost::sim::options::{usage, Options};
use frameboost::sim::report::{
    comparison_lines, csv_lines, heading, report_lines, rung_histogram, timeline,
};
use frameboost::sim::scenario::{by_name, catalogue, Script};
use frameboost::telemetry::{Decision, DecisionKind, Telemetry};
use frameboost::text::{first_sentence, join, read_u32, words, wrap};

fn s(x: f32) -> F32 {
    F32::from_bits(x.to_bits())
}

fn v(x: F32) -> f32 {
    f32::from_bits(x.to_bits())
}

fn d(x: f64) -> F64 {
    F64::from_bits(x.to_bits())
}

fn vd(x: F64) -> f64 {
    f64::from_bits(x.to_bits())
}

fn args(list: &[&str]) -> Vec<String> {
    list.iter().map(|a| a.to_string()).collect()
}

fn parse(list: &[&str]) -> Result<Options, String> {
    Options::parse(
        &args(list),
        &|t: &String| t.parse::<f64>().ok().map(d),
        &|t: &String| t.parse::<f32>().ok().map(s),
    )
}

#[test]
fn options_start_from_the_stock_settings() {
    let o = parse(&[]).unwrap();
    assert!(o.scenario.is_none() && o.frames.is_none());
    assert_eq!(vd(o.native_ms), 70.0);
    assert_eq!((o.width, o.height, v(o.fps)), (192, 108, 60.0));
    assert!(!o.no_pipeline && !o.csv && !o.help);
}

#[test]
fn options_are_read_in_order_and_the_last_one_counts() {
    let o = parse(&[
        "--scenario", "fence", "--frames", "10", "--native-ms", "90.5", "--width", "+64",
        "--height", "36", "--fps", "120", "--no-pipeline", "--csv", "-s", "calm-pan", "-h",
    ])
    .unwrap();
    assert_eq!(o.scenario.as_deref(), Some("calm-pan"));
    assert_eq!(o.frames, Some(10));
    assert_eq!((vd(o.native_ms), o.width, o.height, v(o.fps)), (90.5, 64, 36, 120.0));
    assert!(o.no_pipeline && o.csv && o.help);
}

#[test]
fn bad_options_are_named() {
    assert_eq!(parse(&["--frames"]).unwrap_err(), "--frames needs a value");
    assert_eq!(parse(&["--turbo"]).unwrap_err(), "unknown argument '--turbo'");
    assert_eq!(
        parse(&["--frames", "many"]).unwrap_err(),
        "--frames: could not parse 'many'"
    );
    assert_eq!(
        parse(&["--native-ms", "x"]).unwrap_err(),
        "--native-ms: could not parse 'x'"
    );
    assert_eq!(parse(&["--fps", ""]).unwrap_err(), "--fps: could not parse ''");
    assert_eq!(
        parse(&["--width", "4294967296"]).unwrap_err(),
        "--width: could not parse '4294967296'"
    );
    // A switch is taken as a value where one is due.
    assert_eq!(
        parse(&["--height", "--csv"]).unwrap_err(),
        "--height: could not parse '--csv'"
    );
}

#[test]
fn whole_numbers_read_as_the_machine_reads_them() {
    for t in [
        "", "+", "-", "-0", "0", "00", "+0", "++1", "1+", "4294967295", "4294967296",
        "00000000004294967295", "99999999999999999999999", "12a", " 1", "1 ", "\u{0661}",
    ] {
        assert_eq!(read_u32(t), t.parse::<u32>().ok(), "{t:?}");
    }
}

#[test]
fn settings_are_kept_within_what_makes_sense() {
    let mut o = parse(&["--width", "3", "--height", "0", "--fps", "0.25"]).unwrap();
    o.native_ms = d(0.001);
    let c = o.config();
    assert_eq!((c.output_width, c.output_height, v(c.target_fps)), (8, 8, 1.0));
    assert_eq!(c.native_frame_ns, (0.1f64 * 1e6) as u64);
    assert!(c.full_pipeline);
    let c = parse(&["--native-ms", "70", "--no-pipeline"]).unwrap().config();
    assert_eq!(c.native_frame_ns, 70_000_000);
    assert!(!c.full_pipeline);
}

#[test]
fn the_scenarios_asked_for_are_the_ones_run() {
    let all = parse(&["--frames", "5"]).unwrap().scenarios().unwrap();
    assert_eq!(all.len(), 6);
    assert!(all.iter().all(|k| k.frames == 5));
    let one = parse(&["-s", "whip-turn"]).unwrap().scenarios().unwrap();
    assert_eq!((one.len(), one[0].name, one[0].frames), (1, "whip-turn", 1500));
    assert_eq!(one[0].script, Script::Whip);
    assert_eq!(
        parse(&["-s", "nope"]).unwrap().scenarios().unwrap_err(),
        "no scenario named 'nope'"
    );
}

#[test]
fn usage_lists_every_scenario_with_its_first_sentence() {
    let u = usage();
    assert!(u.starts_with("usage: frameboost-sim [options]\n\noptions:\n  -s, --scenario <name>"));
    for k in catalogue() {
        assert!(u.contains(&format!("  {:<16}{}\n", k.name, first_sentence(k.blurb))));
    }
    assert!(u.ends_with("  load-swing      Render cost rises and falls while reconstruction stays easy.\n"));
}

#[test]
fn words_are_parted_as_the_machine_parts_them() {
    for t in [
        "", " ", "a", "  two  words ", "tab\tand\nline", "thin\u{2009}space\u{3000}wide",
        "no\u{200b}break", "\u{85}next\u{a0}nbsp\u{1680}ogham\u{202f}n\u{205f}m",
    ] {
        let got = words(t);
        let want: Vec<String> = t.split_whitespace().map(|w| w.to_string()).collect();
        assert_eq!(got, want, "{t:?}");
        assert_eq!(join(&got, "--"), want.join("--"));
    }
}

#[test]
fn sentences_end_at_a_full_stop_before_a_space() {
    assert_eq!(first_sentence("One.  Two. Three"), "One.");
    assert_eq!(first_sentence("v1.2 is  out"), "v1.2 is out");
    assert_eq!(first_sentence("Ends here."), "Ends here.");
    assert_eq!(first_sentence(""), "");
}

#[test]
fn lines_wrap_at_their_width_in_bytes() {
    assert_eq!(wrap("aa bb cc", 5), vec!["aa bb", "cc"]);
    assert_eq!(wrap("aa bb cc", 4), vec!["aa", "bb", "cc"]);
    assert_eq!(wrap("long-word x", 3), vec!["long-word", "x"]);
    assert_eq!(wrap("\u{e9}\u{e9} bb", 6), vec!["\u{e9}\u{e9}", "bb"]);
    assert!(wrap("  ", 10).is_empty());
}

fn frame(index: u32, level: u8, judgement: Judgement) -> FrameRecord {
    FrameRecord {
        index,
        level,
        ceiling: 6,
        confidence: s(0.75),
        judgement,
        dominant: None,
        scene_cut: false,
        signals: Signals::clean(),
        frame_ns: 10_000_000,
        presented: 1,
    }
}

fn report(frames: Vec<FrameRecord>) -> RunReport {
    let mut telemetry = Telemetry::default();
    for f in &frames {
        let kind = match f.judgement {
            Judgement::Discarded => DecisionKind::Discarded,
            Judgement::Degraded => DecisionKind::Degraded,
            _ => DecisionKind::Presented,
        };
        telemetry.record(
            Decision {
                frame: f.index as u64,
                level: f.level,
                ceiling: f.ceiling,
                confidence: f.confidence,
                kind,
                dominant: f.dominant.unwrap_or(SignalKind::Disocclusion),
                scene_cut: f.scene_cut,
            },
            f.presented,
        );
    }
    RunReport {
        scenario: "calm-pan",
        frames,
        telemetry,
        config: Config::default(),
        spoiled: None,
    }
}

#[test]
fn a_timeline_has_a_column_for_every_few_frames() {
    let empty = report(vec![]);
    assert_eq!(timeline(&empty), (String::new(), String::new()));

    let few = report(vec![
        frame(0, 0, Judgement::Presented),
        frame(1, 3, Judgement::Degraded),
        frame(2, 5, Judgement::NotJudged),
    ]);
    assert_eq!(timeline(&few), ("035".to_string(), "·!·".to_string()));

    // 100 frames make 50 columns of two; of two rungs the higher one is shown.
    let many: Vec<FrameRecord> =
        (0..100).map(|k| frame(k, (k % 2) as u8 + 1, Judgement::Presented)).collect();
    let (rungs, drops) = timeline(&report(many));
    assert_eq!(rungs, "2".repeat(50));
    assert_eq!(drops, "·".repeat(50));
}

#[test]
fn a_histogram_shares_the_frames_out() {
    assert_eq!(rung_histogram(&report(vec![])), "—");
    let r = report(vec![
        frame(0, 0, Judgement::Presented),
        frame(1, 5, Judgement::Presented),
        frame(2, 5, Judgement::Presented),
        frame(3, 5, Judgement::Presented),
    ]);
    assert_eq!(rung_histogram(&r), "native 25% · performance_gen 75%");
}

#[test]
fn a_report_reads_as_it_should() {
    let mut frames: Vec<FrameRecord> =
        (0..8).map(|k| frame(k, 5, Judgement::Discarded)).collect();
    frames[0].dominant = Some(SignalKind::MotionResidual);
    frames[0].scene_cut = true;
    frames.push(frame(8, 0, Judgement::NotJudged));
    let r = report(frames);
    let scenario = by_name("calm-pan").unwrap();
    let lines = report_lines(&scenario, &r);
    assert_eq!(lines[0], "▸ calm-pan");
    assert!(lines[1].starts_with("  A slow pan over open terrain."));
    let at = |text: &str| {
        lines.iter().position(|l| l == text).unwrap_or_else(|| panic!("{text} in {lines:#?}"))
    };
    at("  rung   555555550");
    at("  reject !!!!!!!!·");
    at("         (one column ≈ 1 frames; digit = rung index, ! = frame(s) rejected)");
    let first = at("  first rejections");
    assert_eq!(lines[first + 1], "    frame  rung                    conf  cause");
    assert_eq!(
        lines[first + 2],
        "        0  performance_gen         0.75  motion_residual (scene cut)"
    );
    assert_eq!(lines[first + 3], "        1  performance_gen         0.75  -");
    assert_eq!(lines[first + 8], "    … 2 more");
    at("    frames            9");
    at("    boost             1.00x presented per rendered");
    let cost = v(r.telemetry.mean_relative_cost());
    at(&format!("    cost              {cost:.2}x native  (10.0 ms mean, 17 ms target)"));
    at("    delivered         100.0 fps to the display");
    at("    rejected          88.9%  (mostly disocclusion)");
    at("    scene cuts        1");
    at("    not judged        1  (history reset on a resolution change)");
    at("    time on rungs     native 11% · performance_gen 89%");
    assert_eq!(lines.last().unwrap(), "");
}

#[test]
fn a_comparison_lines_its_columns_up() {
    let r = report(vec![frame(0, 0, Judgement::Presented)]);
    let lines = comparison_lines(&vec![r]);
    assert_eq!(lines[0], "summary");
    assert_eq!(lines[1], "  scenario          boost     cost  rejected  delivered");
    assert_eq!(lines[2], "  calm-pan          1.00x    1.04x      0.0%   100.0 fps");
    assert_eq!(lines[3], "");
}

#[test]
fn values_are_parted_by_commas() {
    let mut f = frame(3, 5, Judgement::Discarded);
    f.dominant = Some(SignalKind::LumaShift);
    f.presented = 2;
    let r = report(vec![f]);
    let with = csv_lines(&r, true);
    assert_eq!(
        with[0],
        "scenario,frame,level,ceiling,confidence,judgement,dominant,scene_cut,disocclusion,\
         motion_residual,luma_shift,camera_motion,depth_complexity,pacing_instability,frame_ms,\
         presented"
    );
    let row = "calm-pan,3,5,6,0.7500,Discarded,luma_shift,false,0.0200,0.0300,0.0100,0.1000,\
               0.1200,0.0200,10.000,2";
    assert_eq!(with[1], row);
    assert_eq!(csv_lines(&r, false), vec![row.to_string()]);
}

#[test]
fn a_heading_says_what_is_simulated() {
    assert_eq!(
        heading(&Config::default()),
        "FrameBoost simulator — 192x108 output, 60 fps target, 70.0 ms native frame"
    );
}

#[test]
fn a_short_run_is_reported_line_by_line() {
    let mut scenario = by_name("load-swing").unwrap();
    scenario.frames = 4;
    let cfg = Config { output_width: 16, output_height: 9, full_pipeline: false, ..Config::default() };
    let r = run(
        &scenario,
        &cfg,
        &|a: F32| s(v(a).sin()),
        &|a: F32| s(v(a).cos()),
        &|a: F64| d(vd(a).sin()),
    );
    assert_eq!(csv_lines(&r, true).len(), 5);
    assert_eq!(r.frames[0].judgement, Judgement::NotJudged);
    assert_eq!(rung(r.frames[0].level).name, "native");
    assert!(report_lines(&scenario, &r).iter().any(|l| l == "    frames            4"));
}
