use quartz::{Graph, Param, Step, Unit, Wire};

fn chars(s: &str) -> Vec<char> {
    s.chars().collect()
}

#[test]
fn new_node_defaults() {
    let mut g = Graph::new();
    let a = g.add_node();
    assert_eq!(a, 0);
    let n = g.node(a);
    assert!(n.alive);
    assert_eq!(n.op, chars("empty"));
    assert_eq!(n.order, 0);
    assert!(n.holes.is_empty());
    assert_eq!(n.unit, Unit::Empty);
    assert_eq!(n.unit.inputs(), 0);
    assert_eq!(n.unit.outputs(), 0);
}

#[test]
fn connect_raises_order() {
    let mut g = Graph::new();
    let a = g.add_node();
    let b = g.add_node();
    let c = g.add_node();
    assert!(g.connect(a, b, (0, 0)).is_some());
    assert_eq!(g.node(b).order, 1);
    assert!(g.take_order_changed());
    assert!(g.connect(b, c, (0, 0)).is_some());
    assert_eq!(g.node(c).order, 2);
    // a rank that is already higher stays
    assert!(g.connect(a, c, (0, 0)).is_some());
    assert_eq!(g.node(c).order, 2);
    assert!(g.take_order_changed());
    assert!(g.connect(a, c, (1, 0)).is_some());
    assert!(!g.take_order_changed());
    // the source's rank is not touched
    assert!(g.connect(c, a, (0, 0)).is_some());
    assert_eq!(g.node(a).order, 3);
    assert_eq!(g.node(b).order, 1);
    assert_eq!(g.node(c).order, 2);
}

#[test]
fn connect_creates_hole_pair() {
    let mut g = Graph::new();
    let a = g.add_node();
    let b = g.add_node();
    let (bh, wh) = g.connect(a, b, (-3, 1)).unwrap();
    assert_eq!(g.node(a).holes, vec![bh]);
    assert_eq!(g.node(b).holes, vec![wh]);
    assert!(g.node(b).gained_input);
    let black = g.hole(bh);
    let white = g.hole(wh);
    assert!(black.alive && black.black);
    assert!(white.alive && !white.black);
    assert_eq!((black.parent, black.partner, black.partner_parent), (a, wh, b));
    assert_eq!((white.parent, white.partner, white.partner_parent), (b, bh, a));
    assert_eq!((white.producer, white.consumer), (-3, 1));
    assert!(white.open);
    assert_eq!(g.inputs_of(b), vec![Wire { hole: wh, from: a, producer: -3, consumer: 1 }]);
    assert!(g.inputs_of(a).is_empty());
}

#[test]
fn connect_refuses_self_and_missing() {
    let mut g = Graph::new();
    let a = g.add_node();
    assert_eq!(g.connect(a, a, (0, 0)), None);
    assert_eq!(g.connect(a, 7, (0, 0)), None);
    assert_eq!(g.hole_slots(), 0);
    assert!(g.node(a).holes.is_empty());
    assert!(!g.take_order_changed());
}

#[test]
fn connect_then_remove_restores_holes() {
    let mut g = Graph::new();
    let a = g.add_node();
    let b = g.add_node();
    let c = g.add_node();
    g.connect(c, a, (0, 0)).unwrap();
    g.connect(b, c, (0, 0)).unwrap();
    let a_before = g.node(a).holes.clone();
    let b_before = g.node(b).holes.clone();
    let order_b = g.node(b).order;
    let (bh, wh) = g.connect(a, b, (0, 0)).unwrap();
    let raised = g.node(b).order;
    assert!(raised > order_b);
    g.remove_connection(bh);
    assert_eq!(g.node(a).holes, a_before);
    assert_eq!(g.node(b).holes, b_before);
    assert_eq!(g.node(b).order, raised);
    assert!(!g.hole(bh).alive && !g.hole(wh).alive);
    assert!(g.node(b).lost_input);
    assert_eq!(g.take_dropped(), vec![wh]);
    assert!(g.take_dropped().is_empty());
}

#[test]
fn remove_through_white_hole() {
    let mut g = Graph::new();
    let a = g.add_node();
    let b = g.add_node();
    let (bh, wh) = g.connect(a, b, (0, 0)).unwrap();
    g.remove_connection(wh);
    assert!(g.node(a).holes.is_empty());
    assert!(g.node(b).holes.is_empty());
    assert!(!g.node(a).lost_input);
    assert!(g.node(b).lost_input);
    assert!(!g.hole(bh).alive);
    // a dead hole is ignored
    g.remove_connection(bh);
    assert_eq!(g.take_dropped(), vec![wh]);
}

#[test]
fn delete_node_cascades() {
    let mut g = Graph::new();
    let a = g.add_node();
    let b = g.add_node();
    let c = g.add_node();
    let (ab_b, ab_w) = g.connect(a, b, (0, 0)).unwrap();
    let (bc_b, bc_w) = g.connect(b, c, (0, 0)).unwrap();
    let (ac_b, ac_w) = g.connect(a, c, (0, 1)).unwrap();
    g.take_order_changed();
    g.delete_node(b);
    assert!(!g.is_node(b));
    assert!(g.node(b).holes.is_empty());
    assert_eq!(g.node(a).holes, vec![ac_b]);
    assert_eq!(g.node(c).holes, vec![ac_w]);
    for h in [ab_b, ab_w, bc_b, bc_w] {
        assert!(!g.hole(h).alive);
    }
    assert!(g.hole(ac_b).alive && g.hole(ac_w).alive);
    assert!(g.node(c).lost_input);
    assert!(g.take_order_changed());
    for n in [a, c] {
        for h in g.node(n).holes.clone() {
            let x = g.hole(h);
            assert!(x.alive);
            assert!(x.parent != b && x.partner_parent != b);
        }
    }
    assert_eq!(g.inputs_of(c), vec![Wire { hole: ac_w, from: a, producer: 0, consumer: 1 }]);
}

#[test]
fn delete_both_endpoints_in_one_batch() {
    let mut g = Graph::new();
    let a = g.add_node();
    let b = g.add_node();
    let c = g.add_node();
    g.connect(a, b, (0, 0)).unwrap();
    let (bc_b, bc_w) = g.connect(b, c, (0, 0)).unwrap();
    g.delete_selected(&vec![a, b, a], &vec![]);
    assert!(!g.is_node(a) && !g.is_node(b));
    assert!(g.is_node(c));
    assert!(g.node(c).holes.is_empty());
    assert!(!g.hole(bc_b).alive && !g.hole(bc_w).alive);
    // deleting a missing node changes nothing
    g.delete_node(99);
    assert!(g.is_node(c));
}

#[test]
fn set_link_types_opens_panel() {
    let mut g = Graph::new();
    let a = g.add_node();
    let b = g.add_node();
    let (bh, wh) = g.connect(a, b, (0, 0)).unwrap();
    g.set_open(wh, false);
    assert!(!g.hole(wh).open);
    g.set_link_types(bh, -6, 2);
    let w = g.hole(wh);
    assert_eq!((w.producer, w.consumer), (-6, 2));
    assert!(w.open);
    assert_eq!(g.hole(bh).producer, 0);
}

#[test]
fn targets_skip_self() {
    let mut g = Graph::new();
    let a = g.add_node();
    let b = g.add_node();
    g.target(a, b);
    g.target(a, a);
    g.target(a, 5);
    assert_eq!(g.node(a).targets, vec![b]);
}

#[test]
fn eval_order_by_rank() {
    let mut g = Graph::new();
    let a = g.add_node();
    let b = g.add_node();
    let c = g.add_node();
    let d = g.add_node();
    g.connect(c, b, (0, 0)).unwrap();
    g.connect(b, a, (0, 0)).unwrap();
    g.delete_node(d);
    assert_eq!(g.eval_order(), vec![c, b, a]);
}

#[test]
fn tick_rebuilds_changed_unit_only() {
    let mut g = Graph::new();
    let n1 = g.add_node();
    let n2 = g.add_node();
    g.set_op(n1, "sine(220)");
    g.set_op(n2, "mul(2)");
    let (_, wh) = g.connect(n1, n2, (0, 0)).unwrap();
    let steps = g.tick();
    assert_eq!(
        steps,
        vec![
            Step { node: n1, recompiled: true, rewired: false },
            Step { node: n2, recompiled: true, rewired: true },
        ]
    );
    let wiring = vec![Wire { hole: wh, from: n1, producer: 0, consumer: 0 }];
    assert_eq!(g.inputs_of(n2), wiring);
    assert_eq!(g.node(n1).unit.outputs(), 1);
    assert_eq!(g.node(n2).unit.inputs(), 1);
    assert_eq!(
        g.node(n2).unit,
        Unit::Op { name: chars("mul"), params: vec![Param::Number(chars("2"))], inputs: 1, outputs: 1 }
    );
    g.set_op(n1, "sine(440)");
    let steps = g.tick();
    assert_eq!(
        steps,
        vec![
            Step { node: n1, recompiled: true, rewired: false },
            Step { node: n2, recompiled: false, rewired: false },
        ]
    );
    assert_eq!(
        g.node(n1).unit,
        Unit::Op { name: chars("sine"), params: vec![Param::Number(chars("440"))], inputs: 0, outputs: 1 }
    );
    assert_eq!(g.inputs_of(n2), wiring);
    assert_eq!(g.node(n2).holes, vec![wh]);
    assert!(!g.node(n1).op_changed && !g.node(n2).gained_input);
}

#[test]
fn open_outputs_by_producer_code() {
    let mut g = Graph::new();
    let a = g.add_node();
    let b = g.add_node();
    let c = g.add_node();
    let (_, w1) = g.connect(a, b, (-3, 0)).unwrap();
    let (_, w2) = g.connect(a, c, (-6, 0)).unwrap();
    let (_, w3) = g.connect(b, c, (-3, 0)).unwrap();
    for w in [w1, w2, w3] {
        g.set_open(w, false);
    }
    g.open_after_drag(a, &vec![-3, -4]);
    assert!(g.hole(w1).open);
    assert!(!g.hole(w2).open);
    assert!(!g.hole(w3).open);
    g.open_after_drag(a, &vec![]);
    assert!(!g.hole(w2).open);
}

#[test]
fn step_link_type_saturates() {
    let mut g = Graph::new();
    let a = g.add_node();
    let b = g.add_node();
    let (bh, wh) = g.connect(a, b, (126, -128)).unwrap();
    g.set_open(wh, false);
    g.step_link_type(bh, true);
    g.step_link_type(bh, true);
    g.step_link_type(wh, false);
    let w = g.hole(wh);
    assert_eq!((w.producer, w.consumer), (127, -128));
    assert!(w.open);
    g.step_link_type(wh, true);
    assert_eq!(g.hole(wh).consumer, -127);
}

#[test]
fn order_edits_raise_event() {
    let mut g = Graph::new();
    let a = g.add_node();
    g.step_order(a, false);
    assert_eq!(g.node(a).order, 0);
    assert!(g.take_order_changed());
    g.step_order(a, true);
    g.step_order(a, true);
    assert_eq!(g.node(a).order, 2);
    g.set_order(a, u64::MAX);
    g.step_order(a, true);
    assert_eq!(g.node(a).order, u64::MAX);
    assert!(g.take_order_changed());
    // a cycle cannot push a rank past the largest one
    let b = g.add_node();
    g.set_order(b, u64::MAX);
    g.connect(a, b, (0, 0)).unwrap();
    assert_eq!(g.node(b).order, u64::MAX);
}

#[test]
fn audio_and_value_inputs_split_by_sign() {
    let mut g = Graph::new();
    let a = g.add_node();
    let b = g.add_node();
    let (_, w1) = g.connect(a, b, (0, 1)).unwrap();
    let (_, w2) = g.connect(a, b, (-1, -3)).unwrap();
    let (_, w3) = g.connect(a, b, (-1, 0)).unwrap();
    assert_eq!(g.audio_inputs(b), vec![Wire { hole: w1, from: a, producer: 0, consumer: 1 }]);
    assert_eq!(g.value_inputs(b), vec![Wire { hole: w2, from: a, producer: -1, consumer: -3 }]);
    assert_eq!(g.inputs_of(b).len(), 3);
    assert_eq!(g.inputs_of(b)[2].hole, w3);
    assert!(g.audio_inputs(a).is_empty());
}

#[test]
fn delete_selected_hole_keeps_nodes() {
    let mut g = Graph::new();
    let a = g.add_node();
    let b = g.add_node();
    let c = g.add_node();
    let (x_b, x_w) = g.connect(a, c, (0, 0)).unwrap();
    let (ab_b, ab_w) = g.connect(a, b, (0, 0)).unwrap();
    let (y_b, y_w) = g.connect(a, c, (1, 0)).unwrap();
    g.take_order_changed();
    g.delete_selected(&vec![], &vec![ab_w, ab_b]);
    assert!(g.is_node(a) && g.is_node(b) && g.is_node(c));
    assert_eq!(g.node(a).holes, vec![x_b, y_b]);
    assert_eq!(g.node(c).holes, vec![x_w, y_w]);
    assert!(g.node(b).holes.is_empty());
    assert!(g.node(b).lost_input);
    assert!(!g.node(a).lost_input && !g.node(c).lost_input);
    assert_eq!(g.take_dropped(), vec![ab_w]);
    assert!(!g.take_order_changed());
}

#[test]
fn delete_keeps_survivor_state() {
    let mut g = Graph::new();
    let a = g.add_node();
    let b = g.add_node();
    let c = g.add_node();
    g.set_op(c, "sine(3)");
    g.tick();
    g.target(c, a);
    let (ab_b, ab_w) = g.connect(a, b, (0, 0)).unwrap();
    let (ca_b, ca_w) = g.connect(c, a, (0, 0)).unwrap();
    let (cb_b, cb_w) = g.connect(c, b, (0, 0)).unwrap();
    let rank_b = g.node(b).order;
    g.delete_selected(&vec![a], &vec![]);
    assert_eq!(g.node(b).order, rank_b);
    assert_eq!(g.node(b).holes, vec![cb_w]);
    assert_eq!(g.node(c).holes, vec![cb_b]);
    assert!(g.node(b).lost_input);
    assert!(!g.node(c).lost_input);
    assert_eq!(g.node(c).targets, vec![a]);
    assert_eq!(g.node(c).unit, quartz::str_to_net("sine(3)"));
    assert_eq!(g.take_dropped(), vec![ab_w, ca_w]);
    assert!(!g.hole(ab_b).alive && !g.hole(ca_b).alive);
    assert!(g.take_order_changed());
}

#[test]
fn values_follow_matching_channels() {
    let mut g = Graph::new();
    let a = g.add_node();
    let b = g.add_node();
    let c = g.add_node();
    let (_, w1) = g.connect(a, b, (-1, -1)).unwrap();
    let (_, w2) = g.connect(a, b, (-1, -6)).unwrap();
    let (_, w3) = g.connect(b, c, (-1, -1)).unwrap();
    let (_, w4) = g.connect(b, c, (-6, -6)).unwrap();
    g.propagate_values(c);
    assert!(!g.hole(w3).changed && !g.hole(w4).changed);
    let got = g.propagate_values(b);
    assert_eq!(got, vec![Wire { hole: w1, from: a, producer: -1, consumer: -1 }]);
    assert!(!g.hole(w1).changed && !g.hole(w2).changed);
    assert!(g.hole(w3).changed);
    assert!(!g.hole(w4).changed);
    assert!(g.propagate_values(b).is_empty());
    assert_eq!(g.propagate_values(c), vec![Wire { hole: w3, from: b, producer: -1, consumer: -1 }]);
}

#[test]
fn audio_plan_keeps_existing_ports() {
    let mut g = Graph::new();
    let a = g.add_node();
    let b = g.add_node();
    let c = g.add_node();
    g.set_op(a, "sine(220)");
    g.set_op(b, "mul(2)");
    g.set_op(c, "sink()");
    g.connect(a, b, (0, 0)).unwrap();
    g.connect(a, b, (1, 0)).unwrap();
    g.connect(a, b, (0, 1)).unwrap();
    g.connect(b, c, (0, 0)).unwrap();
    g.connect(a, c, (-1, 0)).unwrap();
    g.tick();
    let order = g.eval_order();
    assert_eq!(order, vec![a, b, c]);
    assert_eq!(g.audio_plan(&order), vec![(a, 0, b, 0), (b, 0, c, 0)]);
    assert_eq!(g.output_node(&order), Some(b));
    assert_eq!(g.output_node(&vec![]), None);
}

#[test]
fn connect_then_delete_hole_restores_holes() {
    let mut g = Graph::new();
    let a = g.add_node();
    let b = g.add_node();
    g.connect(b, a, (0, 0)).unwrap();
    let a_before = g.node(a).holes.clone();
    let b_before = g.node(b).holes.clone();
    let (_, wh) = g.connect(a, b, (0, 0)).unwrap();
    let raised = g.node(b).order;
    g.delete_selected(&vec![], &vec![wh]);
    assert_eq!(g.node(a).holes, a_before);
    assert_eq!(g.node(b).holes, b_before);
    assert_eq!(g.node(b).order, raised);
}
