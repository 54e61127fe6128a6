//! The operator compiler: from an operator string `name(p0,p1,...)` to a
//! unit descriptor with a fixed number of input and output ports.
//!
//! Each operator name has a family of overloads, each binding a fixed number
//! of leading parameters. An operator with just a one-parameter overload and
//! a no-parameter overload takes the first when exactly one parameter parses
//! and the second otherwise. Any other operator takes the overload that binds
//! the most parameters among those that the parsed parameters can fill. A
//! name that the table does not know, or a call that no overload fits,
//! compiles to silence: a unit with one output and no input.
//!
//! The channel routers `join`, `split` and `reverse` take their channel count
//! from the value of their parameter as a float cast to an integer; they
//! compile to a routing unit that is sized once that count is known.
use vstd::prelude::*;

use crate::param::{copy_chars, param_of, read_param, Param, ParamModel};
use crate::text::{chars_of, same_text};

verus! {

/// One overload of an operator: how many parameters it binds, and the
/// number of input and output ports of the unit it yields.
#[derive(Clone, Copy, PartialEq, Eq, Structural, Debug)]
pub struct Form {
    pub params: usize,
    pub inputs: usize,
    pub outputs: usize,
}

/// A compiled unit.
#[derive(Debug, PartialEq, Eq)]
pub enum Unit {
    /// The unit of a node that has no operator yet: no inputs, no outputs.
    Empty,
    /// A constant zero: no input, one output.
    Silence,
    /// An overload of a named operator with its bound parameters.
    Op { name: Vec<char>, params: Vec<Param>, inputs: usize, outputs: usize },
    /// A channel router (`join`, `split` or `reverse`) whose channel count,
    /// the parameter's value cast to an integer, is still to be given; it
    /// has no ports until `sized`.
    Routing { name: Vec<char>, param: Param },
}

/// A compiled unit as a mathematical value.
pub ghost enum UnitModel {
    Empty,
    Silence,
    Op { name: Seq<char>, params: Seq<ParamModel>, inputs: usize, outputs: usize },
    Routing { name: Seq<char>, param: ParamModel },
}

/// The mathematical values of a run of parameters.
pub open spec fn params_view(ps: Seq<Param>) -> Seq<ParamModel> {
    ps.map_values(|p: Param| p@)
}

impl View for Unit {
    type V = UnitModel;

    open spec fn view(&self) -> UnitModel {
        match self {
            Unit::Empty => UnitModel::Empty,
            Unit::Silence => UnitModel::Silence,
            Unit::Op { name, params, inputs, outputs } => UnitModel::Op {
                name: name@,
                params: params_view(params@),
                inputs: *inputs,
                outputs: *outputs,
            },
            Unit::Routing { name, param } => UnitModel::Routing { name: name@, param: param@ },
        }
    }
}

/// A routing unit given its channel count `n`: `join` has `n` inputs and one
/// output, `split` one input and `n` outputs, `reverse` `n` of each. A count
/// outside 2 to 8 gives silence. Other units are left as they are.
pub open spec fn sized(u: UnitModel, n: usize) -> UnitModel {
    match u {
        UnitModel::Routing { name, param } => if 2 <= n <= 8 {
            UnitModel::Op {
                name,
                params: seq![param],
                inputs: if name == "split"@ { 1 } else { n },
                outputs: if name == "join"@ { 1 } else { n },
            }
        } else {
            UnitModel::Silence
        },
        _ => u,
    }
}

/// The number of input ports of a unit.
pub open spec fn unit_inputs(u: UnitModel) -> usize {
    match u {
        UnitModel::Op { inputs, .. } => inputs,
        _ => 0,
    }
}

/// The number of output ports of a unit.
pub open spec fn unit_outputs(u: UnitModel) -> usize {
    match u {
        UnitModel::Silence => 1,
        UnitModel::Op { outputs, .. } => outputs,
        _ => 0,
    }
}

impl Unit {
    /// The number of input ports.
    pub fn inputs(&self) -> (r: usize)
        ensures
            r == unit_inputs(self@),
    {
        match self {
            Unit::Op { inputs, .. } => *inputs,
            _ => 0,
        }
    }

    /// The number of output ports.
    pub fn outputs(&self) -> (r: usize)
        ensures
            r == unit_outputs(self@),
    {
        match self {
            Unit::Silence => 1,
            Unit::Op { outputs, .. } => *outputs,
            _ => 0,
        }
    }

    /// Gives a routing unit its channel count `n`; see `sized`.
    pub fn sized(self, n: usize) -> (r: Unit)
        ensures
            r@ == sized(self@, n),
    {
        match self {
            Unit::Routing { name, param } => {
                if 2 <= n && n <= 8 {
                    let split = same_text(&name, "split");
                    let join = same_text(&name, "join");
                    let mut params: Vec<Param> = Vec::new();
                    let ghost pm = param@;
                    params.push(param);
                    assert(params_view(params@) =~= seq![pm]);
                    Unit::Op {
                        name,
                        params,
                        inputs: if split { 1 } else { n },
                        outputs: if join { 1 } else { n },
                    }
                } else {
                    Unit::Silence
                }
            },
            other => other,
        }
    }

    /// Whether this is the silent unit.
    pub fn is_silence(&self) -> (r: bool)
        ensures
            r == (self@ == UnitModel::Silence),
    {
        match self {
            Unit::Silence => true,
            _ => false,
        }
    }
}

/// The overloads binding 1 to `hi` parameters, in that order; each has
/// `inputs` inputs, and as many outputs as parameters when `outputs_follow`,
/// else one.
pub open spec fn variadic(hi: nat, inputs: usize, outputs_follow: bool) -> Seq<Form>
    decreases hi,
{
    if hi == 0 {
        Seq::<Form>::empty()
    } else {
        variadic((hi - 1) as nat, inputs, outputs_follow).push(
            Form {
                params: hi as usize,
                inputs,
                outputs: if outputs_follow { hi as usize } else { 1 },
            },
        )
    }
}

fn variadic_exec(hi: usize, inputs: usize, outputs_follow: bool) -> (r: Vec<Form>)
    ensures
        r@ == variadic(hi as nat, inputs, outputs_follow),
{
    let mut r: Vec<Form> = Vec::new();
    let mut k: usize = 0;
    while k < hi
        invariant
            k <= hi,
            r@ == variadic(k as nat, inputs, outputs_follow),
        decreases hi - k,
    {
        k += 1;
        r.push(Form { params: k, inputs, outputs: if outputs_follow { k } else { 1 } });
    }
    r
}

/// Overloads of the operators in part 1 of the table; empty for other names.
pub open spec fn table_part1(name: Seq<char>) -> Seq<Form> {
    if
        name == "saw"@
        || name == "square"@
        || name == "triangle"@
        || name == "organ"@
        || name == "hammond"@
        || name == "soft_saw"@
        || name == "xd"@
    {
        seq![
            Form { params: 1, inputs: 0, outputs: 1 },
            Form { params: 0, inputs: 1, outputs: 1 },
        ]
    } else if name == "sine"@ {
        seq![
            Form { params: 1, inputs: 0, outputs: 1 },
            Form { params: 0, inputs: 0, outputs: 1 },
        ]
    } else if name == "pulse"@ {
        seq![Form { params: 0, inputs: 2, outputs: 1 }]
    } else if
        name == "brown"@
        || name == "pink"@
        || name == "white"@
        || name == "noise"@
        || name == "zero"@
        || name == "impulse"@
        || name == "t"@
    {
        seq![Form { params: 0, inputs: 0, outputs: 1 }]
    } else if
        name == "lorenz"@
        || name == "rossler"@
        || name == "clock"@
        || name == "pinkpass"@
        || name == "pass"@
        || name == "tick"@
        || name == "rise"@
        || name == "fall"@
    {
        seq![Form { params: 0, inputs: 1, outputs: 1 }]
    } else if name == "dsf_saw"@ || name == "dsf_square"@ {
        seq![
            Form { params: 1, inputs: 1, outputs: 1 },
            Form { params: 0, inputs: 2, outputs: 1 },
        ]
    } else if name == "pluck"@ {
        seq![Form { params: 3, inputs: 1, outputs: 1 }]
    } else if name == "mls"@ {
        seq![
            Form { params: 1, inputs: 0, outputs: 1 },
            Form { params: 0, inputs: 0, outputs: 1 },
        ]
    } else if
        name == "allpole"@
        || name == "pdhalf_bi"@
        || name == "pdhalf_uni"@
        || name == "hypot"@
        || name == "atan2"@
        || name == "dissonance"@
        || name == "sin_hz"@
        || name == "cos_hz"@
        || name == "sqr_hz"@
        || name == "tri_hz"@
        || name == "spline_noise"@
    {
        seq![Form { params: 0, inputs: 2, outputs: 1 }]
    } else if
        name == "allpass"@
        || name == "bandpass"@
        || name == "bandrez"@
        || name == "highpass"@
        || name == "lowpass"@
        || name == "lowrez"@
        || name == "notch"@
        || name == "peak"@
        || name == "moog"@
    {
        seq![
            Form { params: 2, inputs: 1, outputs: 1 },
            Form { params: 1, inputs: 2, outputs: 1 },
            Form { params: 0, inputs: 3, outputs: 1 },
        ]
    } else if name == "allpole_delay"@ || name == "fir3"@ || name == "delay"@ {
        seq![Form { params: 1, inputs: 1, outputs: 1 }]
    } else {
        Seq::<Form>::empty()
    }
}

/// Overloads of the operators in part 2 of the table; empty for other names.
pub open spec fn table_part2(name: Seq<char>) -> Seq<Form> {
    if name == "bell"@ || name == "highshelf"@ || name == "lowshelf"@ {
        seq![
            Form { params: 3, inputs: 1, outputs: 1 },
            Form { params: 2, inputs: 2, outputs: 1 },
            Form { params: 0, inputs: 4, outputs: 1 },
        ]
    } else if name == "biquad"@ {
        seq![Form { params: 5, inputs: 1, outputs: 1 }]
    } else if name == "butterpass"@ || name == "highpole"@ || name == "lowpole"@ {
        seq![
            Form { params: 1, inputs: 1, outputs: 1 },
            Form { params: 0, inputs: 2, outputs: 1 },
        ]
    } else if name == "dcblock"@ || name == "declick"@ {
        seq![
            Form { params: 1, inputs: 1, outputs: 1 },
            Form { params: 0, inputs: 1, outputs: 1 },
        ]
    } else if name == "follow"@ || name == "limiter"@ || name == "wrap"@ {
        seq![
            Form { params: 2, inputs: 1, outputs: 1 },
            Form { params: 1, inputs: 1, outputs: 1 },
        ]
    } else if name == "morph"@ {
        seq![
            Form { params: 3, inputs: 1, outputs: 1 },
            Form { params: 0, inputs: 4, outputs: 1 },
        ]
    } else if name == "resonator"@ {
        seq![
            Form { params: 2, inputs: 1, outputs: 1 },
            Form { params: 0, inputs: 3, outputs: 1 },
        ]
    } else if name == "sink"@ {
        seq![Form { params: 0, inputs: 1, outputs: 0 }]
    } else if name == "pan"@ {
        seq![
            Form { params: 1, inputs: 1, outputs: 2 },
            Form { params: 0, inputs: 2, outputs: 2 },
        ]
    } else if name == "adsr"@ || name == "chorus"@ {
        seq![Form { params: 4, inputs: 1, outputs: 1 }]
    } else {
        Seq::<Form>::empty()
    }
}

/// Overloads of the operators in part 3 of the table; empty for other names.
pub open spec fn table_part3(name: Seq<char>) -> Seq<Form> {
    if name == "xD"@ {
        seq![
            Form { params: 2, inputs: 0, outputs: 1 },
            Form { params: 1, inputs: 1, outputs: 1 },
            Form { params: 0, inputs: 2, outputs: 1 },
        ]
    } else if name == "ar"@ {
        seq![
            Form { params: 4, inputs: 0, outputs: 1 },
            Form { params: 2, inputs: 2, outputs: 1 },
            Form { params: 0, inputs: 4, outputs: 1 },
        ]
    } else if name == "clip"@ {
        seq![
            Form { params: 2, inputs: 1, outputs: 1 },
            Form { params: 0, inputs: 1, outputs: 1 },
        ]
    } else if name == "hold"@ {
        seq![
            Form { params: 2, inputs: 1, outputs: 1 },
            Form { params: 1, inputs: 2, outputs: 1 },
        ]
    } else if name == "limiter_stereo"@ {
        seq![
            Form { params: 2, inputs: 2, outputs: 2 },
            Form { params: 1, inputs: 2, outputs: 2 },
        ]
    } else if name == "reverb_stereo"@ {
        seq![
            Form { params: 3, inputs: 2, outputs: 2 },
            Form { params: 2, inputs: 2, outputs: 2 },
            Form { params: 1, inputs: 2, outputs: 2 },
        ]
    } else if name == "tap"@ || name == "tap_linear"@ {
        seq![Form { params: 2, inputs: 2, outputs: 1 }]
    } else if name == "rotate"@ {
        seq![Form { params: 2, inputs: 2, outputs: 2 }]
    } else if
        name == ">"@
        || name == "<"@
        || name == "=="@
        || name == "!="@
        || name == ">="@
        || name == "<="@
        || name == "min"@
        || name == "max"@
        || name == "pow"@
        || name == "mod"@
        || name == "rem"@
        || name == "log"@
        || name == "bitand"@
        || name == "bitor"@
        || name == "bitxor"@
        || name == "shl"@
        || name == "shr"@
    {
        seq![
            Form { params: 1, inputs: 1, outputs: 1 },
            Form { params: 0, inputs: 2, outputs: 1 },
        ]
    } else if
        name == "lerp"@
        || name == "lerp11"@
        || name == "delerp"@
        || name == "delerp11"@
        || name == "xerp"@
        || name == "xerp11"@
        || name == "dexerp"@
        || name == "dexerp11"@
    {
        seq![
            Form { params: 2, inputs: 1, outputs: 1 },
            Form { params: 0, inputs: 3, outputs: 1 },
        ]
    } else {
        Seq::<Form>::empty()
    }
}

/// Overloads of the operators in part 4 of the table; empty for other names.
pub open spec fn table_part4(name: Seq<char>) -> Seq<Form> {
    if
        name == "abs"@
        || name == "signum"@
        || name == "floor"@
        || name == "fract"@
        || name == "ceil"@
        || name == "round"@
        || name == "sqrt"@
        || name == "exp"@
        || name == "exp2"@
        || name == "exp10"@
        || name == "exp_m1"@
        || name == "ln_1p"@
        || name == "ln"@
        || name == "log2"@
        || name == "log10"@
        || name == "sin"@
        || name == "cos"@
        || name == "tan"@
        || name == "asin"@
        || name == "acos"@
        || name == "atan"@
        || name == "sinh"@
        || name == "cosh"@
        || name == "tanh"@
        || name == "asinh"@
        || name == "acosh"@
        || name == "atanh"@
        || name == "squared"@
        || name == "cubed"@
        || name == "dissonance_max"@
        || name == "db_amp"@
        || name == "amp_db"@
        || name == "a_weight"@
        || name == "m_weight"@
        || name == "softsign"@
        || name == "softexp"@
        || name == "smooth3"@
        || name == "smooth5"@
        || name == "smooth7"@
        || name == "smooth9"@
        || name == "uparc"@
        || name == "downarc"@
        || name == "sine_ease"@
        || name == "semitone_ratio"@
        || name == "rnd"@
        || name == "rnd2"@
        || name == "deg"@
        || name == "rad"@
        || name == "recip"@
    {
        seq![Form { params: 0, inputs: 1, outputs: 1 }]
    } else if name == "spline"@ || name == "spline_mono"@ {
        seq![Form { params: 0, inputs: 5, outputs: 1 }]
    } else if name == "softmix"@ {
        seq![Form { params: 0, inputs: 3, outputs: 1 }]
    } else if name == "fractal_noise"@ {
        seq![Form { params: 0, inputs: 4, outputs: 1 }]
    } else if name == "mirror"@ {
        seq![Form { params: 2, inputs: 1, outputs: 1 }]
    } else if name == "pol"@ || name == "car"@ {
        seq![Form { params: 0, inputs: 2, outputs: 2 }]
    } else if name == "constant"@ || name == "dc"@ {
        variadic(8, 0, true) + seq![Form { params: 0, inputs: 0, outputs: 1 }]
    } else if name == "fir"@ {
        variadic(10, 1, false) + Seq::<Form>::empty()
    } else if
        name == "add"@
        || name == "sub"@
        || name == "mul"@
        || name == "div"@
    {
        variadic(8, 1, false) + seq![Form { params: 0, inputs: 1, outputs: 1 }]
    } else {
        Seq::<Form>::empty()
    }
}

fn table_part1_exec(name: &Vec<char>) -> (r: Vec<Form>)
    ensures
        r@ == table_part1(name@),
{
    if
        same_text(name, "saw")
        || same_text(name, "square")
        || same_text(name, "triangle")
        || same_text(name, "organ")
        || same_text(name, "hammond")
        || same_text(name, "soft_saw")
        || same_text(name, "xd")
    {
        let mut t: Vec<Form> = Vec::new();
        t.push(Form { params: 1, inputs: 0, outputs: 1 });
        t.push(Form { params: 0, inputs: 1, outputs: 1 });
        assert(t@ =~= seq![
                Form { params: 1, inputs: 0, outputs: 1 },
                Form { params: 0, inputs: 1, outputs: 1 },
        ]);
        t
    } else if same_text(name, "sine") {
        let mut t: Vec<Form> = Vec::new();
        t.push(Form { params: 1, inputs: 0, outputs: 1 });
        t.push(Form { params: 0, inputs: 0, outputs: 1 });
        assert(t@ =~= seq![
            Form { params: 1, inputs: 0, outputs: 1 },
            Form { params: 0, inputs: 0, outputs: 1 },
        ]);
        t
    } else if same_text(name, "pulse") {
        let mut t: Vec<Form> = Vec::new();
        t.push(Form { params: 0, inputs: 2, outputs: 1 });
        assert(t@ =~= seq![Form { params: 0, inputs: 2, outputs: 1 }]);
        t
    } else if
        same_text(name, "brown")
        || same_text(name, "pink")
        || same_text(name, "white")
        || same_text(name, "noise")
        || same_text(name, "zero")
        || same_text(name, "impulse")
        || same_text(name, "t")
    {
        let mut t: Vec<Form> = Vec::new();
        t.push(Form { params: 0, inputs: 0, outputs: 1 });
        assert(t@ =~= seq![Form { params: 0, inputs: 0, outputs: 1 }]);
        t
    } else if
        same_text(name, "lorenz")
        || same_text(name, "rossler")
        || same_text(name, "clock")
        || same_text(name, "pinkpass")
        || same_text(name, "pass")
        || same_text(name, "tick")
        || same_text(name, "rise")
        || same_text(name, "fall")
    {
        let mut t: Vec<Form> = Vec::new();
        t.push(Form { params: 0, inputs: 1, outputs: 1 });
        assert(t@ =~= seq![Form { params: 0, inputs: 1, outputs: 1 }]);
        t
    } else if same_text(name, "dsf_saw") || same_text(name, "dsf_square") {
        let mut t: Vec<Form> = Vec::new();
        t.push(Form { params: 1, inputs: 1, outputs: 1 });
        t.push(Form { params: 0, inputs: 2, outputs: 1 });
        assert(t@ =~= seq![
                Form { params: 1, inputs: 1, outputs: 1 },
                Form { params: 0, inputs: 2, outputs: 1 },
        ]);
        t
    } else if same_text(name, "pluck") {
        let mut t: Vec<Form> = Vec::new();
        t.push(Form { params: 3, inputs: 1, outputs: 1 });
        assert(t@ =~= seq![Form { params: 3, inputs: 1, outputs: 1 }]);
        t
    } else if same_text(name, "mls") {
        let mut t: Vec<Form> = Vec::new();
        t.push(Form { params: 1, inputs: 0, outputs: 1 });
        t.push(Form { params: 0, inputs: 0, outputs: 1 });
        assert(t@ =~= seq![
                Form { params: 1, inputs: 0, outputs: 1 },
                Form { params: 0, inputs: 0, outputs: 1 },
        ]);
        t
    } else if
        same_text(name, "allpole")
        || same_text(name, "pdhalf_bi")
        || same_text(name, "pdhalf_uni")
        || same_text(name, "hypot")
        || same_text(name, "atan2")
        || same_text(name, "dissonance")
        || same_text(name, "sin_hz")
        || same_text(name, "cos_hz")
        || same_text(name, "sqr_hz")
        || same_text(name, "tri_hz")
        || same_text(name, "spline_noise")
    {
        let mut t: Vec<Form> = Vec::new();
        t.push(Form { params: 0, inputs: 2, outputs: 1 });
        assert(t@ =~= seq![Form { params: 0, inputs: 2, outputs: 1 }]);
        t
    } else if
        same_text(name, "allpass")
        || same_text(name, "bandpass")
        || same_text(name, "bandrez")
        || same_text(name, "highpass")
        || same_text(name, "lowpass")
        || same_text(name, "lowrez")
        || same_text(name, "notch")
        || same_text(name, "peak")
        || same_text(name, "moog")
    {
        let mut t: Vec<Form> = Vec::new();
        t.push(Form { params: 2, inputs: 1, outputs: 1 });
        t.push(Form { params: 1, inputs: 2, outputs: 1 });
        t.push(Form { params: 0, inputs: 3, outputs: 1 });
        assert(t@ =~= seq![
                Form { params: 2, inputs: 1, outputs: 1 },
                Form { params: 1, inputs: 2, outputs: 1 },
                Form { params: 0, inputs: 3, outputs: 1 },
        ]);
        t
    } else if same_text(name, "allpole_delay") || same_text(name, "fir3") || same_text(name, "delay") {
        let mut t: Vec<Form> = Vec::new();
        t.push(Form { params: 1, inputs: 1, outputs: 1 });
        assert(t@ =~= seq![Form { params: 1, inputs: 1, outputs: 1 }]);
        t
    } else {
        Vec::new()
    }
}

fn table_part2_exec(name: &Vec<char>) -> (r: Vec<Form>)
    ensures
        r@ == table_part2(name@),
{
    if same_text(name, "bell") || same_text(name, "highshelf") || same_text(name, "lowshelf") {
        let mut t: Vec<Form> = Vec::new();
        t.push(Form { params: 3, inputs: 1, outputs: 1 });
        t.push(Form { params: 2, inputs: 2, outputs: 1 });
        t.push(Form { params: 0, inputs: 4, outputs: 1 });
        assert(t@ =~= seq![
                Form { params: 3, inputs: 1, outputs: 1 },
                Form { params: 2, inputs: 2, outputs: 1 },
                Form { params: 0, inputs: 4, outputs: 1 },
        ]);
        t
    } else if same_text(name, "biquad") {
        let mut t: Vec<Form> = Vec::new();
        t.push(Form { params: 5, inputs: 1, outputs: 1 });
        assert(t@ =~= seq![Form { params: 5, inputs: 1, outputs: 1 }]);
        t
    } else if same_text(name, "butterpass") || same_text(name, "highpole") || same_text(name, "lowpole") {
        let mut t: Vec<Form> = Vec::new();
        t.push(Form { params: 1, inputs: 1, outputs: 1 });
        t.push(Form { params: 0, inputs: 2, outputs: 1 });
        assert(t@ =~= seq![
                Form { params: 1, inputs: 1, outputs: 1 },
                Form { params: 0, inputs: 2, outputs: 1 },
        ]);
        t
    } else if same_text(name, "dcblock") || same_text(name, "declick") {
        let mut t: Vec<Form> = Vec::new();
        t.push(Form { params: 1, inputs: 1, outputs: 1 });
        t.push(Form { params: 0, inputs: 1, outputs: 1 });
        assert(t@ =~= seq![
                Form { params: 1, inputs: 1, outputs: 1 },
                Form { params: 0, inputs: 1, outputs: 1 },
        ]);
        t
    } else if same_text(name, "follow") || same_text(name, "limiter") || same_text(name, "wrap") {
        let mut t: Vec<Form> = Vec::new();
        t.push(Form { params: 2, inputs: 1, outputs: 1 });
        t.push(Form { params: 1, inputs: 1, outputs: 1 });
        assert(t@ =~= seq![
                Form { params: 2, inputs: 1, outputs: 1 },
                Form { params: 1, inputs: 1, outputs: 1 },
        ]);
        t
    } else if same_text(name, "morph") {
        let mut t: Vec<Form> = Vec::new();
        t.push(Form { params: 3, inputs: 1, outputs: 1 });
        t.push(Form { params: 0, inputs: 4, outputs: 1 });
        assert(t@ =~= seq![
                Form { params: 3, inputs: 1, outputs: 1 },
                Form { params: 0, inputs: 4, outputs: 1 },
        ]);
        t
    } else if same_text(name, "resonator") {
        let mut t: Vec<Form> = Vec::new();
        t.push(Form { params: 2, inputs: 1, outputs: 1 });
        t.push(Form { params: 0, inputs: 3, outputs: 1 });
        assert(t@ =~= seq![
                Form { params: 2, inputs: 1, outputs: 1 },
                Form { params: 0, inputs: 3, outputs: 1 },
        ]);
        t
    } else if same_text(name, "sink") {
        let mut t: Vec<Form> = Vec::new();
        t.push(Form { params: 0, inputs: 1, outputs: 0 });
        assert(t@ =~= seq![Form { params: 0, inputs: 1, outputs: 0 }]);
        t
    } else if same_text(name, "pan") {
        let mut t: Vec<Form> = Vec::new();
        t.push(Form { params: 1, inputs: 1, outputs: 2 });
        t.push(Form { params: 0, inputs: 2, outputs: 2 });
        assert(t@ =~= seq![
                Form { params: 1, inputs: 1, outputs: 2 },
                Form { params: 0, inputs: 2, outputs: 2 },
        ]);
        t
    } else if same_text(name, "adsr") || same_text(name, "chorus") {
        let mut t: Vec<Form> = Vec::new();
        t.push(Form { params: 4, inputs: 1, outputs: 1 });
        assert(t@ =~= seq![Form { params: 4, inputs: 1, outputs: 1 }]);
        t
    } else {
        Vec::new()
    }
}

fn table_part3_exec(name: &Vec<char>) -> (r: Vec<Form>)
    ensures
        r@ == table_part3(name@),
{
    if same_text(name, "xD") {
        let mut t: Vec<Form> = Vec::new();
        t.push(Form { params: 2, inputs: 0, outputs: 1 });
        t.push(Form { params: 1, inputs: 1, outputs: 1 });
        t.push(Form { params: 0, inputs: 2, outputs: 1 });
        assert(t@ =~= seq![
                Form { params: 2, inputs: 0, outputs: 1 },
                Form { params: 1, inputs: 1, outputs: 1 },
                Form { params: 0, inputs: 2, outputs: 1 },
        ]);
        t
    } else if same_text(name, "ar") {
        let mut t: Vec<Form> = Vec::new();
        t.push(Form { params: 4, inputs: 0, outputs: 1 });
        t.push(Form { params: 2, inputs: 2, outputs: 1 });
        t.push(Form { params: 0, inputs: 4, outputs: 1 });
        assert(t@ =~= seq![
                Form { params: 4, inputs: 0, outputs: 1 },
                Form { params: 2, inputs: 2, outputs: 1 },
                Form { params: 0, inputs: 4, outputs: 1 },
        ]);
        t
    } else if same_text(name, "clip") {
        let mut t: Vec<Form> = Vec::new();
        t.push(Form { params: 2, inputs: 1, outputs: 1 });
        t.push(Form { params: 0, inputs: 1, outputs: 1 });
        assert(t@ =~= seq![
                Form { params: 2, inputs: 1, outputs: 1 },
                Form { params: 0, inputs: 1, outputs: 1 },
        ]);
        t
    } else if same_text(name, "hold") {
        let mut t: Vec<Form> = Vec::new();
        t.push(Form { params: 2, inputs: 1, outputs: 1 });
        t.push(Form { params: 1, inputs: 2, outputs: 1 });
        assert(t@ =~= seq![
                Form { params: 2, inputs: 1, outputs: 1 },
                Form { params: 1, inputs: 2, outputs: 1 },
        ]);
        t
    } else if same_text(name, "limiter_stereo") {
        let mut t: Vec<Form> = Vec::new();
        t.push(Form { params: 2, inputs: 2, outputs: 2 });
        t.push(Form { params: 1, inputs: 2, outputs: 2 });
        assert(t@ =~= seq![
                Form { params: 2, inputs: 2, outputs: 2 },
                Form { params: 1, inputs: 2, outputs: 2 },
        ]);
        t
    } else if same_text(name, "reverb_stereo") {
        let mut t: Vec<Form> = Vec::new();
        t.push(Form { params: 3, inputs: 2, outputs: 2 });
        t.push(Form { params: 2, inputs: 2, outputs: 2 });
        t.push(Form { params: 1, inputs: 2, outputs: 2 });
        assert(t@ =~= seq![
                Form { params: 3, inputs: 2, outputs: 2 },
                Form { params: 2, inputs: 2, outputs: 2 },
                Form { params: 1, inputs: 2, outputs: 2 },
        ]);
        t
    } else if same_text(name, "tap") || same_text(name, "tap_linear") {
        let mut t: Vec<Form> = Vec::new();
        t.push(Form { params: 2, inputs: 2, outputs: 1 });
        assert(t@ =~= seq![Form { params: 2, inputs: 2, outputs: 1 }]);
        t
    } else if same_text(name, "rotate") {
        let mut t: Vec<Form> = Vec::new();
        t.push(Form { params: 2, inputs: 2, outputs: 2 });
        assert(t@ =~= seq![Form { params: 2, inputs: 2, outputs: 2 }]);
        t
    } else if
        same_text(name, ">")
        || same_text(name, "<")
        || same_text(name, "==")
        || same_text(name, "!=")
        || same_text(name, ">=")
        || same_text(name, "<=")
        || same_text(name, "min")
        || same_text(name, "max")
        || same_text(name, "pow")
        || same_text(name, "mod")
        || same_text(name, "rem")
        || same_text(name, "log")
        || same_text(name, "bitand")
        || same_text(name, "bitor")
        || same_text(name, "bitxor")
        || same_text(name, "shl")
        || same_text(name, "shr")
    {
        let mut t: Vec<Form> = Vec::new();
        t.push(Form { params: 1, inputs: 1, outputs: 1 });
        t.push(Form { params: 0, inputs: 2, outputs: 1 });
        assert(t@ =~= seq![
                Form { params: 1, inputs: 1, outputs: 1 },
                Form { params: 0, inputs: 2, outputs: 1 },
        ]);
        t
    } else if
        same_text(name, "lerp")
        || same_text(name, "lerp11")
        || same_text(name, "delerp")
        || same_text(name, "delerp11")
        || same_text(name, "xerp")
        || same_text(name, "xerp11")
        || same_text(name, "dexerp")
        || same_text(name, "dexerp11")
    {
        let mut t: Vec<Form> = Vec::new();
        t.push(Form { params: 2, inputs: 1, outputs: 1 });
        t.push(Form { params: 0, inputs: 3, outputs: 1 });
        assert(t@ =~= seq![
                Form { params: 2, inputs: 1, outputs: 1 },
                Form { params: 0, inputs: 3, outputs: 1 },
        ]);
        t
    } else {
        Vec::new()
    }
}

fn table_part4_exec(name: &Vec<char>) -> (r: Vec<Form>)
    ensures
        r@ == table_part4(name@),
{
    if
        same_text(name, "abs")
        || same_text(name, "signum")
        || same_text(name, "floor")
        || same_text(name, "fract")
        || same_text(name, "ceil")
        || same_text(name, "round")
        || same_text(name, "sqrt")
        || same_text(name, "exp")
        || same_text(name, "exp2")
        || same_text(name, "exp10")
        || same_text(name, "exp_m1")
        || same_text(name, "ln_1p")
        || same_text(name, "ln")
        || same_text(name, "log2")
        || same_text(name, "log10")
        || same_text(name, "sin")
        || same_text(name, "cos")
        || same_text(name, "tan")
        || same_text(name, "asin")
        || same_text(name, "acos")
        || same_text(name, "atan")
        || same_text(name, "sinh")
        || same_text(name, "cosh")
        || same_text(name, "tanh")
        || same_text(name, "asinh")
        || same_text(name, "acosh")
        || same_text(name, "atanh")
        || same_text(name, "squared")
        || same_text(name, "cubed")
        || same_text(name, "dissonance_max")
        || same_text(name, "db_amp")
        || same_text(name, "amp_db")
        || same_text(name, "a_weight")
        || same_text(name, "m_weight")
        || same_text(name, "softsign")
        || same_text(name, "softexp")
        || same_text(name, "smooth3")
        || same_text(name, "smooth5")
        || same_text(name, "smooth7")
        || same_text(name, "smooth9")
        || same_text(name, "uparc")
        || same_text(name, "downarc")
        || same_text(name, "sine_ease")
        || same_text(name, "semitone_ratio")
        || same_text(name, "rnd")
        || same_text(name, "rnd2")
        || same_text(name, "deg")
        || same_text(name, "rad")
        || same_text(name, "recip")
    {
        let mut t: Vec<Form> = Vec::new();
        t.push(Form { params: 0, inputs: 1, outputs: 1 });
        assert(t@ =~= seq![Form { params: 0, inputs: 1, outputs: 1 }]);
        t
    } else if same_text(name, "spline") || same_text(name, "spline_mono") {
        let mut t: Vec<Form> = Vec::new();
        t.push(Form { params: 0, inputs: 5, outputs: 1 });
        assert(t@ =~= seq![Form { params: 0, inputs: 5, outputs: 1 }]);
        t
    } else if same_text(name, "softmix") {
        let mut t: Vec<Form> = Vec::new();
        t.push(Form { params: 0, inputs: 3, outputs: 1 });
        assert(t@ =~= seq![Form { params: 0, inputs: 3, outputs: 1 }]);
        t
    } else if same_text(name, "fractal_noise") {
        let mut t: Vec<Form> = Vec::new();
        t.push(Form { params: 0, inputs: 4, outputs: 1 });
        assert(t@ =~= seq![Form { params: 0, inputs: 4, outputs: 1 }]);
        t
    } else if same_text(name, "mirror") {
        let mut t: Vec<Form> = Vec::new();
        t.push(Form { params: 2, inputs: 1, outputs: 1 });
        assert(t@ =~= seq![Form { params: 2, inputs: 1, outputs: 1 }]);
        t
    } else if same_text(name, "pol") || same_text(name, "car") {
        let mut t: Vec<Form> = Vec::new();
        t.push(Form { params: 0, inputs: 2, outputs: 2 });
        assert(t@ =~= seq![Form { params: 0, inputs: 2, outputs: 2 }]);
        t
    } else if same_text(name, "constant") || same_text(name, "dc") {
        let mut t = variadic_exec(8, 0, true);
        let ghost start = t@;
        t.push(Form { params: 0, inputs: 0, outputs: 1 });
        assert(t@ =~= start + seq![Form { params: 0, inputs: 0, outputs: 1 }]);
        t
    } else if same_text(name, "fir") {
        let mut t = variadic_exec(10, 1, false);
        let ghost start = t@;
        assert(t@ =~= start + Seq::<Form>::empty());
        t
    } else if
        same_text(name, "add")
        || same_text(name, "sub")
        || same_text(name, "mul")
        || same_text(name, "div")
    {
        let mut t = variadic_exec(8, 1, false);
        let ghost start = t@;
        t.push(Form { params: 0, inputs: 1, outputs: 1 });
        assert(t@ =~= start + seq![Form { params: 0, inputs: 1, outputs: 1 }]);
        t
    } else {
        Vec::new()
    }
}

/// Every overload of the operator `name`; empty when the table does not know it.
pub open spec fn op_table(name: Seq<char>) -> Seq<Form> {
    let a = table_part1(name);
    let b = table_part2(name);
    let c = table_part3(name);
    if a.len() > 0 { a } else if b.len() > 0 { b } else if c.len() > 0 { c } else { table_part4(name) }
}

fn op_table_exec(name: &Vec<char>) -> (r: Vec<Form>)
    ensures
        r@ == op_table(name@),
{
    let a = table_part1_exec(name);
    if a.len() > 0 {
        return a;
    }
    let b = table_part2_exec(name);
    if b.len() > 0 {
        return b;
    }
    let c = table_part3_exec(name);
    if c.len() > 0 {
        return c;
    }
    table_part4_exec(name)
}

/// The operators whose unit depends on more than the number of parameters.
pub open spec fn is_special(name: Seq<char>) -> bool {
    name == "join"@ || name == "split"@ || name == "reverse"@ || name == "meter"@
}

/// Whether the compiler knows the operator `name`.
pub open spec fn known_name(name: Seq<char>) -> bool {
    is_special(name) || op_table(name).len() > 0
}

/// The overload with the most parameters that `n` parsed parameters can
/// fill; of two with as many, the earlier.
pub open spec fn pick(t: Seq<Form>, n: nat) -> Option<Form>
    decreases t.len(),
{
    if t.len() == 0 {
        None
    } else {
        let r = pick(t.drop_last(), n);
        let f = t.last();
        if f.params <= n && (r.is_none() || r.unwrap().params < f.params) {
            Some(f)
        } else {
            r
        }
    }
}

fn pick_exec(t: &Vec<Form>, n: usize) -> (r: Option<Form>)
    ensures
        r == pick(t@, n as nat),
{
    let mut best: Option<Form> = None;
    let mut i: usize = 0;
    while i < t.len()
        invariant
            i <= t@.len(),
            best == pick(t@.take(i as int), n as nat),
        decreases t@.len() - i,
    {
        assert(t@.take(i + 1 as int).drop_last() =~= t@.take(i as int));
        let f = t[i];
        let better = match best {
            None => f.params <= n,
            Some(b) => f.params <= n && b.params < f.params,
        };
        if better {
            best = Some(f);
        }
        i += 1;
    }
    assert(t@.take(i as int) =~= t@);
    best
}

/// Whether the overloads `t` are just a one-parameter form followed by a
/// no-parameter form.
pub open spec fn one_or_none(t: Seq<Form>) -> bool {
    t.len() == 2 && t[0].params == 1 && t[1].params == 0
}

/// The overload chosen for `n` parsed parameters: of a one-or-none table,
/// the one-parameter form exactly when `n == 1`; of any other table, `pick`.
pub open spec fn select(t: Seq<Form>, n: nat) -> Option<Form> {
    if one_or_none(t) {
        Some(if n == 1 { t[0] } else { t[1] })
    } else {
        pick(t, n)
    }
}

fn select_exec(t: &Vec<Form>, n: usize) -> (r: Option<Form>)
    ensures
        r == select(t@, n as nat),
{
    if t.len() == 2 && t[0].params == 1 && t[1].params == 0 {
        Some(if n == 1 { t[0] } else { t[1] })
    } else {
        pick_exec(t, n)
    }
}

/// What `pick` chooses: an overload of the table that fits, with no fitting
/// overload binding more parameters.
pub proof fn lemma_pick(t: Seq<Form>, n: nat)
    ensures
        pick(t, n).is_some() ==> pick(t, n).unwrap().params <= n && t.contains(pick(t, n).unwrap()),
        forall|i: int| 0 <= i < t.len() && t[i].params <= n ==> #[trigger] pick(t, n).is_some()
            && t[i].params <= pick(t, n).unwrap().params,
    decreases t.len(),
{
    if t.len() > 0 {
        lemma_pick(t.drop_last(), n);
        let r = pick(t.drop_last(), n);
        if r.is_some() {
            let j = choose|j: int| 0 <= j < t.drop_last().len() && t.drop_last()[j] == r.unwrap();
            assert(t[j] == r.unwrap());
        }
        assert forall|i: int| 0 <= i < t.len() && t[i].params <= n implies #[trigger] pick(t, n).is_some()
            && t[i].params <= pick(t, n).unwrap().params by {
            if i < t.len() - 1 {
                assert(t.drop_last()[i] == t[i]);
            }
        }
        if pick(t, n).is_some() && pick(t, n) != r {
            assert(t[t.len() - 1] == t.last());
        }
    }
}

/// The name under which a unit reports an operator that has two names.
pub open spec fn canonical(name: Seq<char>) -> Seq<char> {
    if name == "noise"@ { "white"@ }
    else if name == "dc"@ { "constant"@ }
    else if name == "rem"@ { "mod"@ }
    else { name }
}

fn canonical_exec(name: &Vec<char>) -> (r: Vec<char>)
    ensures
        r@ == canonical(name@),
{
    if same_text(name, "noise") {
        chars_of("white")
    } else if same_text(name, "dc") {
        chars_of("constant")
    } else if same_text(name, "rem") {
        chars_of("mod")
    } else {
        copy_chars(name)
    }
}

/// `s` with every space taken out.
pub open spec fn without_spaces(s: Seq<char>) -> Seq<char>
    decreases s.len(),
{
    if s.len() == 0 {
        s
    } else {
        let r = without_spaces(s.drop_last());
        if s.last() == ' ' { r } else { r.push(s.last()) }
    }
}

fn strip_spaces(s: &Vec<char>) -> (r: Vec<char>)
    ensures
        r@ == without_spaces(s@),
{
    let mut r: Vec<char> = Vec::new();
    let mut i: usize = 0;
    while i < s.len()
        invariant
            i <= s@.len(),
            r@ == without_spaces(s@.take(i as int)),
        decreases s@.len() - i,
    {
        assert(s@.take(i + 1 as int).drop_last() =~= s@.take(i as int));
        if s[i] != ' ' {
            r.push(s[i]);
        }
        i += 1;
    }
    assert(s@.take(i as int) =~= s@);
    r
}

/// The index of the first `a` or `b` in `s`; the length of `s` when there is none.
pub open spec fn first_of(s: Seq<char>, a: char, b: char) -> int
    decreases s.len(),
{
    if s.len() == 0 {
        0
    } else if s[0] == a || s[0] == b {
        0
    } else {
        1 + first_of(s.drop_first(), a, b)
    }
}

proof fn lemma_first_of(s: Seq<char>, a: char, b: char, i: int)
    requires
        0 <= i <= s.len(),
        forall|j: int| 0 <= j < i ==> #[trigger] s[j] != a && s[j] != b,
        i == s.len() || s[i] == a || s[i] == b,
    ensures
        first_of(s, a, b) == i,
    decreases i,
{
    if i > 0 {
        assert forall|j: int| 0 <= j < i - 1 implies #[trigger] s.drop_first()[j] != a
            && s.drop_first()[j] != b by {
            assert(s.drop_first()[j] == s[j + 1]);
        }
        lemma_first_of(s.drop_first(), a, b, i - 1);
    }
}

/// The index of the first `a` or `b` in `s` at or after `from`; the length
/// of `s` when there is none.
fn find_first(s: &Vec<char>, from: usize, a: char, b: char) -> (r: usize)
    requires
        from <= s@.len(),
    ensures
        r == from + first_of(s@.skip(from as int), a, b),
        from <= r <= s@.len(),
{
    let mut i: usize = from;
    while i < s.len() && s[i] != a && s[i] != b
        invariant
            from <= i <= s@.len(),
            forall|j: int| from <= j < i ==> #[trigger] s@[j] != a && s@[j] != b,
        decreases s@.len() - i,
    {
        i += 1;
    }
    proof {
        let t = s@.skip(from as int);
        assert forall|j: int| 0 <= j < i - from implies #[trigger] t[j] != a && t[j] != b by {
            assert(t[j] == s@[from + j]);
        }
        if i < s@.len() {
            assert(t[i - from] == s@[i as int]);
        }
        lemma_first_of(t, a, b, i - from);
    }
    i
}

fn sub_chars(s: &Vec<char>, from: usize, to: usize) -> (r: Vec<char>)
    requires
        from <= to <= s@.len(),
    ensures
        r@ == s@.subrange(from as int, to as int),
{
    let mut r: Vec<char> = Vec::new();
    let mut i: usize = from;
    while i < to
        invariant
            from <= i <= to,
            to <= s@.len(),
            r@ == s@.subrange(from as int, i as int),
        decreases to - i,
    {
        r.push(s[i]);
        i += 1;
        assert(r@ =~= s@.subrange(from as int, i as int));
    }
    r
}

/// `s` cut at each comma; a text without a comma is one piece.
pub open spec fn comma_pieces(s: Seq<char>) -> Seq<Seq<char>>
    decreases s.len(),
{
    if s.len() == 0 {
        seq![Seq::<char>::empty()]
    } else {
        let r = comma_pieces(s.drop_last());
        if s.last() == ',' {
            r.push(Seq::<char>::empty())
        } else {
            r.update(r.len() - 1, r.last().push(s.last()))
        }
    }
}

/// The pieces that read as parameters, in order; the others are dropped.
pub open spec fn parsed(pieces: Seq<Seq<char>>) -> Seq<ParamModel>
    decreases pieces.len(),
{
    if pieces.len() == 0 {
        Seq::<ParamModel>::empty()
    } else {
        let r = parsed(pieces.drop_last());
        match param_of(pieces.last()) {
            Some(p) => r.push(p),
            None => r,
        }
    }
}

/// Reads the comma-separated parameter list `text`, dropping the pieces
/// that are not parameters.
pub fn read_params(text: &Vec<char>) -> (r: Vec<Param>)
    ensures
        params_view(r@) == parsed(comma_pieces(text@)),
{
    let mut out: Vec<Param> = Vec::new();
    let mut cur: Vec<char> = Vec::new();
    let ghost mut done: Seq<Seq<char>> = Seq::empty();
    let mut i: usize = 0;
    while i < text.len()
        invariant
            i <= text@.len(),
            done.push(cur@) == comma_pieces(text@.take(i as int)),
            params_view(out@) == parsed(done),
        decreases text@.len() - i,
    {
        assert(text@.take(i + 1 as int).drop_last() =~= text@.take(i as int));
        let c = text[i];
        if c == ',' {
            let ghost before = out@;
            if let Some(p) = read_param(&cur) {
                out.push(p);
                assert(params_view(out@) =~= params_view(before).push(p@));
            }
            assert(done.push(cur@).drop_last() =~= done);
            proof {
                done = done.push(cur@);
            }
            cur = Vec::new();
            assert(done.push(cur@) =~= comma_pieces(text@.take(i + 1 as int)));
        } else {
            cur.push(c);
            assert(done.push(cur@) =~= comma_pieces(text@.take(i + 1 as int)));
        }
        i += 1;
    }
    assert(text@.take(i as int) =~= text@);
    let ghost before = out@;
    if let Some(p) = read_param(&cur) {
        out.push(p);
        assert(params_view(out@) =~= params_view(before).push(p@));
    }
    assert(done.push(cur@).drop_last() =~= done);
    out
}

/// Whether `s` begins with `w`.
pub open spec fn starts_with(s: Seq<char>, w: Seq<char>) -> bool {
    s.len() >= w.len() && s.take(w.len() as int) == w
}

fn starts_with_exec(s: &Vec<char>, w: &str) -> (r: bool)
    ensures
        r == starts_with(s@, w@),
{
    let n = w.unicode_len();
    if s.len() < n {
        return false;
    }
    let head = sub_chars(s, 0, n);
    assert(head@ =~= s@.take(n as int));
    same_text(&head, w)
}

/// The unit of operator `name` called with the parameter list `text`, of
/// which `ps` are the pieces that read as parameters.
pub open spec fn unit_of(name: Seq<char>, text: Seq<char>, ps: Seq<ParamModel>) -> UnitModel {
    if name == "join"@ || name == "split"@ || name == "reverse"@ {
        if ps.len() > 0 {
            UnitModel::Routing { name, param: ps[0] }
        } else {
            UnitModel::Silence
        }
    } else if name == "meter"@ {
        if ps.len() > 0 && starts_with(text, "peak"@) {
            UnitModel::Op { name: "meter_peak"@, params: ps.take(1), inputs: 1, outputs: 1 }
        } else if ps.len() > 0 && starts_with(text, "rms"@) {
            UnitModel::Op { name: "meter_rms"@, params: ps.take(1), inputs: 1, outputs: 1 }
        } else {
            UnitModel::Silence
        }
    } else {
        match select(op_table(name), ps.len()) {
            Some(f) => UnitModel::Op {
                name: canonical(name),
                params: ps.take(f.params as int),
                inputs: f.inputs,
                outputs: f.outputs,
            },
            None => UnitModel::Silence,
        }
    }
}

/// The operator text with spaces taken out.
pub open spec fn op_text(op: Seq<char>) -> Seq<char> {
    without_spaces(op)
}

/// The operator's name: the text before the first parenthesis.
pub open spec fn op_name(op: Seq<char>) -> Seq<char> {
    let s = op_text(op);
    s.take(first_of(s, '(', ')'))
}

/// The parameter list: the text between the first parenthesis and the next
/// one (or the end); none when the text has no parenthesis.
pub open spec fn op_params_text(op: Seq<char>) -> Option<Seq<char>> {
    let s = op_text(op);
    let k = first_of(s, '(', ')');
    if k == s.len() {
        None
    } else {
        let rest = s.skip(k + 1);
        Some(rest.take(first_of(rest, '(', ')')))
    }
}

/// The unit that the operator string `op` compiles to.
pub open spec fn compile(op: Seq<char>) -> UnitModel {
    match op_params_text(op) {
        None => UnitModel::Silence,
        Some(text) => unit_of(op_name(op), text, parsed(comma_pieces(text))),
    }
}

/// An operator string whose name the compiler does not know compiles to
/// silence, a unit with no input and one output, whatever its parameters.
pub proof fn law_unknown_name_is_silence(op: Seq<char>)
    requires
        !known_name(op_name(op)),
    ensures
        compile(op) == UnitModel::Silence,
        unit_inputs(compile(op)) == 0,
        unit_outputs(compile(op)) == 1,
{
}

/// Of an operator whose overloads are just a one-parameter form and a
/// no-parameter form: when exactly one parameter parses, the one-parameter
/// form is chosen with that parameter, and otherwise the no-parameter form.
pub proof fn law_one_or_no_parameter(op: Seq<char>)
    requires
        op_params_text(op).is_some(),
        !is_special(op_name(op)),
        one_or_none(op_table(op_name(op))),
    ensures
        ({
            let ps = parsed(comma_pieces(op_params_text(op).unwrap()));
            let t = op_table(op_name(op));
            compile(op) == if ps.len() == 1 {
                UnitModel::Op { name: canonical(op_name(op)), params: ps, inputs: t[0].inputs, outputs: t[0].outputs }
            } else {
                UnitModel::Op {
                    name: canonical(op_name(op)),
                    params: Seq::empty(),
                    inputs: t[1].inputs,
                    outputs: t[1].outputs,
                }
            }
        }),
{
    let ps = parsed(comma_pieces(op_params_text(op).unwrap()));
    assert(ps.take(1) =~= ps || ps.len() != 1);
    assert(ps.take(0) =~= Seq::<ParamModel>::empty());
}

fn unit_for(name: &Vec<char>, text: &Vec<char>, ps: Vec<Param>) -> (r: Unit)
    ensures
        r@ == unit_of(name@, text@, params_view(ps@)),
{
    let ghost pv = params_view(ps@);
    let mut ps = ps;
    if same_text(name, "join") || same_text(name, "split") || same_text(name, "reverse") {
        if ps.len() > 0 {
            ps.truncate(1);
            let param = ps.pop().unwrap();
            return Unit::Routing { name: copy_chars(name), param };
        }
        return Unit::Silence;
    }
    if same_text(name, "meter") {
        if ps.len() > 0 {
            let peak = starts_with_exec(text, "peak");
            let rms = starts_with_exec(text, "rms");
            if peak || rms {
                ps.truncate(1);
                assert(params_view(ps@) =~= pv.take(1));
                let label = if peak { chars_of("meter_peak") } else { chars_of("meter_rms") };
                return Unit::Op { name: label, params: ps, inputs: 1, outputs: 1 };
            }
        }
        return Unit::Silence;
    }
    let table = op_table_exec(name);
    match select_exec(&table, ps.len()) {
        Some(f) => {
            ps.truncate(f.params);
            proof {
                lemma_pick(table@, pv.len());
                if one_or_none(table@) {
                    assert(f.params <= pv.len() || f.params == 0 || (pv.len() == 1 && f.params == 1));
                }
            }
            assert(params_view(ps@) =~= pv.take(f.params as int));
            Unit::Op { name: canonical_exec(name), params: ps, inputs: f.inputs, outputs: f.outputs }
        },
        None => Unit::Silence,
    }
}

/// Compiles an operator string. Spaces are taken out first; the text before
/// the first parenthesis is the name, the text up to the next parenthesis is
/// a comma-separated parameter list, and pieces of it that are neither float
/// literals nor named constants are dropped. A string with no parenthesis,
/// an unknown name, or parameters that fit no overload give silence.
pub fn str_to_net(op: &str) -> (r: Unit)
    ensures
        r@ == compile(op@),
{
    let raw = chars_of(op);
    compile_chars(&raw)
}

/// Compiles an operator string given as characters; see `str_to_net`.
pub fn compile_chars(raw: &Vec<char>) -> (r: Unit)
    ensures
        r@ == compile(raw@),
{
    let s = strip_spaces(raw);
    let k = find_first(&s, 0, '(', ')');
    assert(s@.skip(0) =~= s@);
    if k == s.len() {
        return Unit::Silence;
    }
    let end = find_first(&s, k + 1, '(', ')');
    let name = sub_chars(&s, 0, k);
    let text = sub_chars(&s, k + 1, end);
    assert(name@ =~= op_name(raw@));
    assert(text@ =~= s@.skip(k + 1).take(first_of(s@.skip(k + 1), '(', ')')));
    let ps = read_params(&text);
    unit_for(&name, &text, ps)
}

} // verus!
