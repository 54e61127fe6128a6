use quartz::{parse_with_constants, str_to_net, NamedConst, Param, ParamError, Unit};

fn chars(s: &str) -> Vec<char> {
    s.chars().collect()
}

fn num(s: &str) -> Param {
    Param::Number(chars(s))
}

fn op(name: &str, params: Vec<Param>, inputs: usize, outputs: usize) -> Unit {
    Unit::Op { name: chars(name), params, inputs, outputs }
}

#[test]
fn sine_with_frequency() {
    let u = str_to_net("sine(440)");
    assert_eq!(u, op("sine", vec![num("440")], 0, 1));
    assert_eq!(u.inputs(), 0);
    assert_eq!(u.outputs(), 1);
}

#[test]
fn sine_without_parameters() {
    let u = str_to_net("sine()");
    assert_eq!(u, op("sine", vec![], 0, 1));
    assert_eq!(u.inputs(), 0);
    assert_eq!(u.outputs(), 1);
}

#[test]
fn add_three_constants() {
    let u = str_to_net("add(1,2,3)");
    assert_eq!(u, op("add", vec![num("1"), num("2"), num("3")], 1, 1));
}

#[test]
fn unknown_name_same_as_empty() {
    assert_eq!(str_to_net("bogus(1,2)"), str_to_net(""));
    assert_eq!(str_to_net(""), Unit::Silence);
}

#[test]
fn unknown_name_is_silence() {
    for text in ["wobble(3)", "Sine(440)", "ramp()", "x()", "(1,2)"] {
        let u = str_to_net(text);
        assert!(u.is_silence(), "{}", text);
        assert_eq!(u.inputs(), 0);
        assert_eq!(u.outputs(), 1);
    }
}

#[test]
fn no_parentheses_is_silence() {
    assert_eq!(str_to_net("sine"), Unit::Silence);
    assert_eq!(str_to_net("empty"), Unit::Silence);
}

#[test]
fn spaces_are_stripped() {
    let u = str_to_net(" low pass ( 440 , 2 ) ");
    assert_eq!(u, op("lowpass", vec![num("440"), num("2")], 1, 1));
}

#[test]
fn unparsed_parameter_is_dropped() {
    // the dropped piece selects the one-parameter overload
    let u = str_to_net("lowpass(foo,440)");
    assert_eq!(u, op("lowpass", vec![num("440")], 2, 1));
    assert_eq!(str_to_net("lowpass()"), op("lowpass", vec![], 3, 1));
}

#[test]
fn one_parameter_or_two_inputs() {
    assert_eq!(str_to_net(">(0.5)"), op(">", vec![num("0.5")], 1, 1));
    assert_eq!(str_to_net(">()"), op(">", vec![], 2, 1));
    assert_eq!(str_to_net(">(x)"), op(">", vec![], 2, 1));
    assert_eq!(str_to_net("bitand(PI)"), op("bitand", vec![Param::Constant(NamedConst::Pi, false)], 1, 1));
}

#[test]
fn two_parameters_take_two_input_form() {
    assert_eq!(str_to_net("min(1,2)"), op("min", vec![], 2, 1));
    assert_eq!(str_to_net(">(1,x,3)"), op(">", vec![], 2, 1));
    assert_eq!(str_to_net("sine(440,2)"), op("sine", vec![], 0, 1));
    assert_eq!(str_to_net("saw(220,1)"), op("saw", vec![], 1, 1));
    // an operator with more overloads still takes the largest that fits
    assert_eq!(str_to_net("lowpass(440,2,9)"), op("lowpass", vec![num("440"), num("2")], 1, 1));
}

#[test]
fn constant_outputs_follow_parameters() {
    assert_eq!(str_to_net("dc(1,2,3)"), op("constant", vec![num("1"), num("2"), num("3")], 0, 3));
    assert_eq!(str_to_net("constant()"), op("constant", vec![], 0, 1));
    let many = str_to_net("dc(1,2,3,4,5,6,7,8,9)");
    assert_eq!(many.outputs(), 8);
}

#[test]
fn fir_needs_a_coefficient() {
    assert_eq!(str_to_net("fir()"), Unit::Silence);
    assert_eq!(str_to_net("fir(0.5,0.5)"), op("fir", vec![num("0.5"), num("0.5")], 1, 1));
    assert_eq!(str_to_net("pluck(440,0.5)"), Unit::Silence);
}

fn value(p: &Param) -> f32 {
    match p {
        Param::Number(t) => t.iter().collect::<String>().parse::<f32>().unwrap(),
        Param::Constant(NamedConst::Pi, false) => std::f32::consts::PI,
        Param::Constant(NamedConst::Tau, false) => std::f32::consts::TAU,
        Param::Constant(NamedConst::E, false) => std::f32::consts::E,
        Param::Constant(_, _) => 0.0,
    }
}

fn routed(text: &str) -> Unit {
    let u = str_to_net(text);
    let n = match &u {
        Unit::Routing { param, .. } => value(param) as usize,
        _ => 0,
    };
    u.sized(n)
}

#[test]
fn channel_routing_counts() {
    assert_eq!(str_to_net("join(3)"), Unit::Routing { name: chars("join"), param: num("3") });
    assert_eq!(str_to_net("join(3)").inputs(), 0);
    assert_eq!(routed("join(3)"), op("join", vec![num("3")], 3, 1));
    assert_eq!(routed("split(PI)"), op("split", vec![Param::Constant(NamedConst::Pi, false)], 1, 3));
    assert_eq!(routed("reverse(2.9)"), op("reverse", vec![num("2.9")], 2, 2));
    assert_eq!(routed("reverse(9)"), Unit::Silence);
    assert_eq!(routed("join(1)"), Unit::Silence);
    assert_eq!(routed("join(-3)"), Unit::Silence);
    assert_eq!(str_to_net("join()"), Unit::Silence);
    assert_eq!(routed("split(TAU)").outputs(), 6);
    assert_eq!(str_to_net("sine(1)").sized(3), str_to_net("sine(1)"));
}

#[test]
fn channel_counts_follow_float_value() {
    assert_eq!(routed("join(2.9999999999)").inputs(), 3);
    assert_eq!(routed("join(1.99999999)").inputs(), 2);
    assert_eq!(routed("join(2e0)").inputs(), 2);
    assert_eq!(routed("split(0.3e1)").outputs(), 3);
    assert_eq!(routed("reverse(80e-1)").inputs(), 8);
    assert!(routed("join(8.9999999999)").is_silence());
    assert!(routed("join(inf)").is_silence());
    assert!(routed("join(nan)").is_silence());
}

#[test]
fn meter_modes() {
    assert_eq!(str_to_net("meter(peak,0.5)"), op("meter_peak", vec![num("0.5")], 1, 1));
    assert_eq!(str_to_net("meter(rms,0.1)"), op("meter_rms", vec![num("0.1")], 1, 1));
    assert_eq!(str_to_net("meter(0.5)"), Unit::Silence);
    assert_eq!(str_to_net("meter(peak)"), Unit::Silence);
}

#[test]
fn aliases_report_one_name() {
    assert_eq!(str_to_net("noise()"), op("white", vec![], 0, 1));
    assert_eq!(str_to_net("rem(3)"), op("mod", vec![num("3")], 1, 1));
}

#[test]
fn envelope_overloads() {
    assert_eq!(str_to_net("ar(0.1,1,0.5,2)").inputs(), 0);
    assert_eq!(str_to_net("ar(1,2)").inputs(), 2);
    assert_eq!(str_to_net("ar(1)").inputs(), 4);
    assert_eq!(str_to_net("xD(1)"), op("xD", vec![num("1")], 1, 1));
}

#[test]
fn named_constants_and_literals() {
    assert_eq!(parse_with_constants("-TAU"), Ok(Param::Constant(NamedConst::Tau, true)));
    assert_eq!(parse_with_constants("E"), Ok(Param::Constant(NamedConst::E, false)));
    assert_eq!(parse_with_constants("FRAC_1_SQRT_2"), Ok(Param::Constant(NamedConst::Frac1Sqrt2, false)));
    assert_eq!(parse_with_constants("1e3"), Ok(num("1e3")));
    assert_eq!(parse_with_constants("-2.5E-3"), Ok(num("-2.5E-3")));
    assert_eq!(parse_with_constants(".5"), Ok(num(".5")));
    assert_eq!(parse_with_constants("5."), Ok(num("5.")));
    assert_eq!(parse_with_constants("inf"), Ok(num("inf")));
    assert_eq!(parse_with_constants("-Infinity"), Ok(num("-Infinity")));
    assert_eq!(parse_with_constants("NaN"), Ok(num("NaN")));
}

#[test]
fn rejected_parameters() {
    for text in ["", ".", "1e", "--E", "pi", "1.2.3", "abc", "+", "e5", "- PI"] {
        assert_eq!(parse_with_constants(text), Err(ParamError::NotANumber), "{}", text);
    }
}

#[test]
fn literals_agree_with_float_parsing() {
    for text in ["0", "-0", "+1", "1.", ".1", "1e5", "1E+5", "2.5e-3", "inf", "INF", "nan", "infinity", "1_0", "0x10", " 1", "1 "] {
        let ours = matches!(parse_with_constants(text), Ok(Param::Number(_)));
        assert_eq!(ours, text.parse::<f32>().is_ok(), "{}", text);
    }
}
