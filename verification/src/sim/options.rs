//! The simulator's command line.
//!
//! Decimal fractions are read by the caller: the two readers handed to
//! [`Options::parse`] say what a text is worth, or that it is no number.

use crate::fp::{F32, F64};
use crate::sim::harness::Config;
use crate::sim::scenario::{by_name, catalogue, spec_scenario, Scenario, SCENARIOS};
use crate::text::{
    first_sentence, left, push_left, read_u32, same_text, spec_first_sentence, spec_read_u32, views,
};
use vstd::prelude::*;
use vstd::string::*;

verus! {

/// What was asked for on the command line.
#[derive(Clone, Debug)]
pub struct Options {
    /// The one scenario to run; all of them where there is none.
    pub scenario: Option<String>,
    /// A length to run instead of the scenario's own.
    pub frames: Option<u32>,
    /// Cost of an unboosted frame, in milliseconds.
    pub native_ms: F64,
    /// Output width.
    pub width: u32,
    /// Output height.
    pub height: u32,
    /// Display refresh to target.
    pub fps: F32,
    /// Skip the spatial passes.
    pub no_pipeline: bool,
    /// Per-frame values instead of a report.
    pub csv: bool,
    /// Print the usage and stop.
    pub help: bool,
}

/// What [`Options`] hold.
#[verifier::ext_equal]
pub struct Asked {
    /// The one scenario to run.
    pub scenario: Option<Seq<char>>,
    /// A length to run instead of the scenario's own.
    pub frames: Option<u32>,
    /// Cost of an unboosted frame, in milliseconds.
    pub native_ms: F64,
    /// Output width.
    pub width: u32,
    /// Output height.
    pub height: u32,
    /// Display refresh to target.
    pub fps: F32,
    /// Skip the spatial passes.
    pub no_pipeline: bool,
    /// Per-frame values instead of a report.
    pub csv: bool,
    /// Print the usage and stop.
    pub help: bool,
}

impl View for Options {
    type V = Asked;

    open spec fn view(&self) -> Asked {
        Asked {
            scenario: match self.scenario {
                Some(s) => Some(s@),
                None => None,
            },
            frames: self.frames,
            native_ms: self.native_ms,
            width: self.width,
            height: self.height,
            fps: self.fps,
            no_pipeline: self.no_pipeline,
            csv: self.csv,
            help: self.help,
        }
    }
}

/// What an argument asks for.
#[derive(Clone, Copy, Debug, PartialEq, Eq, Structural)]
pub enum Switch {
    /// Print the usage and stop.
    Help,
    /// Run one scenario.
    Scenario,
    /// Run another length.
    Frames,
    /// Cost of an unboosted frame.
    NativeMs,
    /// Output width.
    Width,
    /// Output height.
    Height,
    /// Display refresh.
    Fps,
    /// Skip the spatial passes.
    NoPipeline,
    /// Per-frame values.
    Csv,
    /// Nothing known.
    Unknown,
}

impl Switch {
    /// What an argument asks for.
    pub open spec fn meant(arg: Seq<char>) -> Switch {
        if arg == "-h"@ || arg == "--help"@ {
            Switch::Help
        } else if arg == "--scenario"@ || arg == "-s"@ {
            Switch::Scenario
        } else if arg == "--frames"@ {
            Switch::Frames
        } else if arg == "--native-ms"@ {
            Switch::NativeMs
        } else if arg == "--width"@ {
            Switch::Width
        } else if arg == "--height"@ {
            Switch::Height
        } else if arg == "--fps"@ {
            Switch::Fps
        } else if arg == "--no-pipeline"@ {
            Switch::NoPipeline
        } else if arg == "--csv"@ {
            Switch::Csv
        } else {
            Switch::Unknown
        }
    }

    /// What an argument asks for.
    pub fn of(arg: &str) -> (s: Switch)
        ensures
            s == Switch::meant(arg@),
    {
        if same_text(arg, "-h") || same_text(arg, "--help") {
            Switch::Help
        } else if same_text(arg, "--scenario") || same_text(arg, "-s") {
            Switch::Scenario
        } else if same_text(arg, "--frames") {
            Switch::Frames
        } else if same_text(arg, "--native-ms") {
            Switch::NativeMs
        } else if same_text(arg, "--width") {
            Switch::Width
        } else if same_text(arg, "--height") {
            Switch::Height
        } else if same_text(arg, "--fps") {
            Switch::Fps
        } else if same_text(arg, "--no-pipeline") {
            Switch::NoPipeline
        } else if same_text(arg, "--csv") {
            Switch::Csv
        } else {
            Switch::Unknown
        }
    }
}

/// What a text reads as, or what is wrong with it.
pub fn parse<T>(read: Option<T>, s: &str, arg: &str) -> (r: Result<T, String>)
    ensures
        match read {
            Some(v) => r == Ok::<T, String>(v),
            None => r is Err && r->Err_0@ == unreadable(arg@, s@),
        },
{
    match read {
        Some(v) => Ok(v),
        None => {
            let mut e = arg.to_owned();
            e.append(": could not parse '");
            e.append(s);
            e.append("'");
            Err(e)
        },
    }
}

/// The complaint about a value that does not read.
pub open spec fn unreadable(arg: Seq<char>, value: Seq<char>) -> Seq<char> {
    arg + ": could not parse '"@ + value + "'"@
}

/// The complaint about a value that is not there.
pub open spec fn valueless(arg: Seq<char>) -> Seq<char> {
    arg + " needs a value"@
}

/// The complaint about an argument that means nothing.
pub open spec fn unknown(arg: Seq<char>) -> Seq<char> {
    "unknown argument '"@ + arg + "'"@
}

impl Asked {
    /// What is asked for before any argument.
    pub open spec fn stock() -> Asked {
        Asked {
            scenario: None,
            frames: None,
            native_ms: F64::from_u64(70_000_000) / F64::from_u32(1_000_000),
            width: 192,
            height: 108,
            fps: F32::ratio(60, 1),
            no_pipeline: false,
            csv: false,
            help: false,
        }
    }

    /// What is asked for once a switch has its value, where the value reads.
    pub open spec fn given(
        self,
        switch: Switch,
        value: Seq<char>,
        double: Option<F64>,
        single: Option<F32>,
    ) -> Option<Asked> {
        match switch {
            Switch::Scenario => Some(Asked { scenario: Some(value), ..self }),
            Switch::Frames => match spec_read_u32(value) {
                Some(n) => Some(Asked { frames: Some(n), ..self }),
                None => None,
            },
            Switch::NativeMs => match double {
                Some(ms) => Some(Asked { native_ms: ms, ..self }),
                None => None,
            },
            Switch::Width => match spec_read_u32(value) {
                Some(n) => Some(Asked { width: n, ..self }),
                None => None,
            },
            Switch::Height => match spec_read_u32(value) {
                Some(n) => Some(Asked { height: n, ..self }),
                None => None,
            },
            Switch::Fps => match single {
                Some(fps) => Some(Asked { fps, ..self }),
                None => None,
            },
            _ => None,
        }
    }

    /// What the arguments from a place on add, or the first complaint about
    /// them; `doubles` and `singles` say what each of them is worth as a number.
    pub open spec fn parsed(
        self,
        args: Seq<Seq<char>>,
        doubles: Seq<Option<F64>>,
        singles: Seq<Option<F32>>,
        i: nat,
    ) -> Result<Asked, Seq<char>>
        decreases args.len() - i,
    {
        if i >= args.len() {
            Ok(self)
        } else {
            let arg = args[i as int];
            match Switch::meant(arg) {
                Switch::Help => Asked { help: true, ..self }.parsed(args, doubles, singles, i + 1),
                Switch::NoPipeline => Asked { no_pipeline: true, ..self }.parsed(
                    args,
                    doubles,
                    singles,
                    i + 1,
                ),
                Switch::Csv => Asked { csv: true, ..self }.parsed(args, doubles, singles, i + 1),
                Switch::Unknown => Err(unknown(arg)),
                switch => if i + 1 >= args.len() {
                    Err(valueless(arg))
                } else {
                    let j = i + 1int;
                    match self.given(switch, args[j], doubles[j], singles[j]) {
                        Some(next) => next.parsed(args, doubles, singles, i + 2),
                        None => Err(unreadable(arg, args[j])),
                    }
                },
            }
        }
    }
}

/// A scenario at another length, where there is one.
pub open spec fn lasting(s: Scenario, frames: Option<u32>) -> Scenario {
    match frames {
        Some(n) => Scenario { frames: n, ..s },
        None => s,
    }
}

/// Whether a result is the one wanted.
pub open spec fn is_result(r: Result<Options, String>, want: Result<Asked, Seq<char>>) -> bool {
    match r {
        Ok(o) => want == Ok::<Asked, Seq<char>>(o@),
        Err(e) => want == Err::<Asked, Seq<char>>(e@),
    }
}

impl Options {
    fn stock() -> (o: Options)
        ensures
            o@ == Asked::stock(),
    {
        let d = Config::default();
        Options {
            scenario: None,
            frames: None,
            native_ms: F64::from_u64(d.native_frame_ns) / F64::from_u32(1_000_000),
            width: d.output_width,
            height: d.output_height,
            fps: d.target_fps,
            no_pipeline: false,
            csv: false,
            help: false,
        }
    }

    fn give(
        &mut self,
        switch: Switch,
        arg: &str,
        value: &String,
        double: Option<F64>,
        single: Option<F32>,
    ) -> (r: Result<(), String>)
        requires
            switch != Switch::Help,
            switch != Switch::NoPipeline,
            switch != Switch::Csv,
            switch != Switch::Unknown,
        ensures
            match old(self)@.given(switch, value@, double, single) {
                Some(next) => r is Ok && final(self)@ == next,
                None => r is Err && r->Err_0@ == unreadable(arg@, value@),
            },
    {
        let v = value.as_str();
        match switch {
            Switch::Scenario => {
                self.scenario = Some(v.to_owned());
            },
            Switch::Frames => match parse(read_u32(v), v, arg) {
                Ok(n) => {
                    self.frames = Some(n);
                },
                Err(e) => {
                    return Err(e);
                },
            },
            Switch::NativeMs => match parse(double, v, arg) {
                Ok(ms) => {
                    self.native_ms = ms;
                },
                Err(e) => {
                    return Err(e);
                },
            },
            Switch::Width => match parse(read_u32(v), v, arg) {
                Ok(n) => {
                    self.width = n;
                },
                Err(e) => {
                    return Err(e);
                },
            },
            Switch::Height => match parse(read_u32(v), v, arg) {
                Ok(n) => {
                    self.height = n;
                },
                Err(e) => {
                    return Err(e);
                },
            },
            _ => match parse(single, v, arg) {
                Ok(fps) => {
                    self.fps = fps;
                },
                Err(e) => {
                    return Err(e);
                },
            },
        }
        Ok(())
    }

    /// The arguments, given what each is worth as a number.
    pub fn parse_read(
        args: &Vec<String>,
        doubles: &Vec<Option<F64>>,
        singles: &Vec<Option<F32>>,
    ) -> (r: Result<Options, String>)
        requires
            doubles.len() == args.len(),
            singles.len() == args.len(),
        ensures
            is_result(r, Asked::stock().parsed(views(args@), doubles@, singles@, 0)),
    {
        let mut o = Options::stock();
        let mut i: usize = 0;
        let ghost want = Asked::stock().parsed(views(args@), doubles@, singles@, 0);
        while i < args.len()
            invariant
                i <= args.len(),
                doubles.len() == args.len(),
                singles.len() == args.len(),
                want == Asked::stock().parsed(views(args@), doubles@, singles@, 0),
                o@.parsed(views(args@), doubles@, singles@, i as nat) == want,
            decreases args.len() - i,
        {
            let arg = args[i].as_str();
            assert(arg@ == views(args@)[i as int]);
            let switch = Switch::of(arg);
            match switch {
                Switch::Help => {
                    o.help = true;
                    i = i + 1;
                },
                Switch::NoPipeline => {
                    o.no_pipeline = true;
                    i = i + 1;
                },
                Switch::Csv => {
                    o.csv = true;
                    i = i + 1;
                },
                Switch::Unknown => {
                    let mut e = "unknown argument '".to_owned();
                    e.append(arg);
                    e.append("'");
                    return Err(e);
                },
                _ => {
                    if args.len() - i == 1 {
                        let mut e = arg.to_owned();
                        e.append(" needs a value");
                        return Err(e);
                    }
                    assert(views(args@)[i + 1] == args@[i + 1]@);
                    match o.give(switch, arg, &args[i + 1], doubles[i + 1], singles[i + 1]) {
                        Ok(_) => {
                            i = i + 2;
                        },
                        Err(e) => {
                            return Err(e);
                        },
                    }
                },
            }
        }
        Ok(o)
    }

    /// The arguments, with a reader for each precision.
    ///
    /// Whatever the readers make of the texts, the arguments are taken as
    /// [`Options::parse_read`] takes them.
    pub fn parse<D: Fn(&String) -> Option<F64>, S: Fn(&String) -> Option<F32>>(
        args: &Vec<String>,
        read_double: &D,
        read_single: &S,
    ) -> (r: Result<Options, String>)
        requires
            forall|s: &String| call_requires(read_double, (s,)),
            forall|s: &String| call_requires(read_single, (s,)),
        ensures
            exists|doubles: Seq<Option<F64>>, singles: Seq<Option<F32>>|
                doubles.len() == args.len() && singles.len() == args.len() && (forall|k: int|
                    0 <= k < args.len() ==> call_ensures(
                        read_double,
                        (&args@[k],),
                        #[trigger] doubles[k],
                    )) && (forall|k: int|
                    0 <= k < args.len() ==> call_ensures(
                        read_single,
                        (&args@[k],),
                        #[trigger] singles[k],
                    )) && is_result(
                    r,
                    #[trigger] Asked::stock().parsed(views(args@), doubles, singles, 0),
                ),
    {
        let mut doubles: Vec<Option<F64>> = Vec::new();
        let mut singles: Vec<Option<F32>> = Vec::new();
        let mut i: usize = 0;
        while i < args.len()
            invariant
                i <= args.len(),
                doubles.len() == i,
                singles.len() == i,
                forall|s: &String| call_requires(read_double, (s,)),
                forall|s: &String| call_requires(read_single, (s,)),
                forall|k: int|
                    0 <= k < i ==> call_ensures(read_double, (&args@[k],), #[trigger] doubles@[k]),
                forall|k: int|
                    0 <= k < i ==> call_ensures(read_single, (&args@[k],), #[trigger] singles@[k]),
            decreases args.len() - i,
        {
            doubles.push(read_double(&args[i]));
            singles.push(read_single(&args[i]));
            i = i + 1;
        }
        let r = Options::parse_read(args, &doubles, &singles);
        assert(is_result(r, Asked::stock().parsed(views(args@), doubles@, singles@, 0)));
        r
    }

    /// The scenarios that were asked for, each as long as was asked for; what is
    /// wrong where the one named does not exist.
    pub fn scenarios(&self) -> (r: Result<Vec<Scenario>, String>)
        ensures
            match self.scenario {
                None => r is Ok && r->Ok_0.len() == SCENARIOS && forall|k: int|
                    0 <= k < SCENARIOS ==> #[trigger] r->Ok_0[k] == lasting(
                        spec_scenario(k),
                        self.frames,
                    ),
                Some(name) => match r {
                    Ok(v) => v.len() == 1 && exists|k: int|
                        0 <= k < SCENARIOS && (#[trigger] spec_scenario(k)).name@ == name@ && v[0]
                            == lasting(spec_scenario(k), self.frames),
                    Err(e) => e@ == "no scenario named '"@ + name@ + "'"@ && forall|k: int|
                        0 <= k < SCENARIOS ==> (#[trigger] spec_scenario(k)).name@ != name@,
                },
            },
    {
        match &self.scenario {
            Some(name) => match by_name(name.as_str()) {
                Some(mut s) => {
                    if let Some(n) = self.frames {
                        s.frames = n;
                    }
                    let mut v: Vec<Scenario> = Vec::new();
                    v.push(s);
                    Ok(v)
                },
                None => {
                    let mut e = "no scenario named '".to_owned();
                    e.append(name.as_str());
                    e.append("'");
                    Err(e)
                },
            },
            None => {
                let all = catalogue();
                let mut v: Vec<Scenario> = Vec::new();
                let mut k: usize = 0;
                while k < all.len()
                    invariant
                        k <= all.len(),
                        all.len() == SCENARIOS,
                        v.len() == k,
                        forall|j: int| 0 <= j < SCENARIOS ==> #[trigger] all[j] == spec_scenario(j),
                        forall|j: int|
                            0 <= j < k ==> #[trigger] v[j] == lasting(spec_scenario(j), self.frames),
                    decreases all.len() - k,
                {
                    let mut s = all[k];
                    if let Some(n) = self.frames {
                        s.frames = n;
                    }
                    v.push(s);
                    k = k + 1;
                }
                Ok(v)
            },
        }
    }

    /// The settings that were asked for, kept within what makes sense.
    pub fn config(&self) -> (c: Config)
        ensures
            c.output_width == if self.width < 8 {
                8
            } else {
                self.width
            },
            c.output_height == if self.height < 8 {
                8
            } else {
                self.height
            },
            c.target_fps == self.fps.max(F32::one()),
            c.native_frame_ns == (self.native_ms.max(F64::ratio(1, 10)) * F64::from_u32(
                1_000_000,
            )).to_u64(),
            c.full_pipeline == !self.no_pipeline,
    {
        Config {
            output_width: if self.width < 8 {
                8
            } else {
                self.width
            },
            output_height: if self.height < 8 {
                8
            } else {
                self.height
            },
            target_fps: self.fps.max(F32::one()),
            native_frame_ns: (self.native_ms.max(F64::ratio(1, 10)) * F64::from_u32(
                1_000_000,
            )).to_u64(),
            full_pipeline: !self.no_pipeline,
        }
    }
}

/// The first `n` rows of the list of scenarios.
pub open spec fn usage_rows(n: nat) -> Seq<char>
    decreases n,
{
    if n == 0 {
        seq![]
    } else {
        let s = spec_scenario(n - 1);
        usage_rows((n - 1) as nat) + ("  "@ + left(s.name@, 16) + spec_first_sentence(s.blurb@)
            + "\n"@)
    }
}

/// How to call the simulator.
pub open spec fn usage_text() -> Seq<char> {
    "usage: frameboost-sim [options]\n\noptions:\n  -s, --scenario <name>   run one scenario (default: all)\n  --frames <n>        override the scenario's length\n  --native-ms <ms>    cost of an unboosted frame (default 70)\n  --width/--height    output resolution (default 192x108)\n  --fps <n>           display refresh to target (default 60)\n  --no-pipeline       skip the spatial passes; faster\n  --csv               per-frame CSV instead of a report\n\nscenarios:\n"@
        + usage_rows(SCENARIOS as nat)
}

/// How to call the simulator.
pub fn usage() -> (s: String)
    ensures
        s@ == usage_text(),
{
    let mut s = "usage: frameboost-sim [options]\n\noptions:\n  -s, --scenario <name>   run one scenario (default: all)\n  --frames <n>        override the scenario's length\n  --native-ms <ms>    cost of an unboosted frame (default 70)\n  --width/--height    output resolution (default 192x108)\n  --fps <n>           display refresh to target (default 60)\n  --no-pipeline       skip the spatial passes; faster\n  --csv               per-frame CSV instead of a report\n\nscenarios:\n".to_owned();
    let all = catalogue();
    let ghost head = s@;
    assert(s@ =~= head + usage_rows(0));
    let mut k: usize = 0;
    while k < all.len()
        invariant
            k <= all.len(),
            all.len() == SCENARIOS,
            forall|j: int| 0 <= j < SCENARIOS ==> #[trigger] all[j] == spec_scenario(j),
            s@ == head + usage_rows(k as nat),
        decreases all.len() - k,
    {
        assert(all[k as int] == spec_scenario(k as int));
        s.append("  ");
        push_left(&mut s, all[k].name, 16);
        s.append(first_sentence(all[k].blurb).as_str());
        s.append("\n");
        assert(s@ =~= head + usage_rows((k + 1) as nat));
        k = k + 1;
    }
    s
}

} // verus!
