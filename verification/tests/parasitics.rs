use vyges_sta::float32::F32;
use vyges_sta::parasitics::{reduce_to_pi_elmore, Network, NodePins};

fn f(x: f32) -> F32 {
    F32(x.to_bits())
}

fn floats(v: &[f32]) -> Vec<F32> {
    v.iter().map(|x| f(*x)).collect()
}

/// A driver (0), 100 ohm, node 1 (1 fF), 200 ohm, load 2 (2 fF): y1 = 3 fF; the moments from the
/// load up; the load's Elmore delay is 100·3f + 200·2f.
#[test]
fn a_chain_reduces_by_the_moment_rules() {
    let net = Network {
        node_caps: floats(&[0.0, 1e-15, 2e-15]),
        resistors: vec![(0, 1, f(100.0)), (1, 2, f(200.0))],
    };
    let pins = NodePins { pin_cap: floats(&[0.0; 3]), is_load: vec![false, false, true] };
    let p = reduce_to_pi_elmore(&net, 0, &pins);
    let (c1, c2) = (f64::from(1e-15f32), f64::from(2e-15f32));
    // The load: y = (2f, 0, 0); across 200 ohm: (2f, -200·4f², 200²·8f³); plus node 1's 1 fF.
    let (l1, l2, l3) = (c2, -200.0 * c2 * c2, 200.0 * 200.0 * c2 * c2 * c2);
    let (m1, m2, m3) = (c1 + l1, l2, l3);
    // Across 100 ohm to the driver.
    let (y1, y2, y3) =
        (m1, m2 - 100.0 * m1 * m1, m3 - 2.0 * 100.0 * m1 * m2 + 100.0 * 100.0 * m1 * m1 * m1);
    assert_eq!(p.c1, f((y2 * y2 / y3) as f32));
    assert_eq!(p.c2, f((y1 - y2 * y2 / y3) as f32));
    assert_eq!(p.rpi, f((-y3 * y3 / (y2 * y2 * y2)) as f32));
    // Downstream caps are kept in single precision; each r·cap product is single.
    let e1 = f64::from(100.0f32 * ((c1 + c2) as f32));
    let e2 = e1 + f64::from(200.0f32 * 2e-15f32);
    assert_eq!(p.elmore, vec![(2, f(e2 as f32))]);
}

/// A lumped load (no resistor): c1 is the capacitance, no pi.
#[test]
fn a_capacitive_load_is_all_c1() {
    let net = Network { node_caps: floats(&[5e-15]), resistors: vec![] };
    let pins = NodePins { pin_cap: floats(&[1e-15]), is_load: vec![false] };
    let p = reduce_to_pi_elmore(&net, 0, &pins);
    assert_eq!((p.c2, p.rpi, p.c1), (f(0.0), f(0.0), f((5e-15f32 as f64 + 1e-15f32 as f64) as f32)));
}

/// A resistor loop: the resistor that closes it is ignored in both walks; one back to its own node
/// is skipped.
#[test]
fn a_loop_resistor_is_dropped() {
    let net = Network {
        node_caps: floats(&[0.0, 1e-15, 1e-15]),
        resistors: vec![(0, 1, f(10.0)), (1, 2, f(10.0)), (2, 0, f(10.0)), (1, 1, f(5.0))],
    };
    let pins = NodePins { pin_cap: floats(&[0.0; 3]), is_load: vec![false, false, true] };
    let with_loop = reduce_to_pi_elmore(&net, 0, &pins);
    let tree = Network {
        node_caps: floats(&[0.0, 1e-15, 1e-15]),
        resistors: vec![(0, 1, f(10.0)), (1, 2, f(10.0))],
    };
    assert_eq!(with_loop, reduce_to_pi_elmore(&tree, 0, &pins));
}

/// Elmore delays are kept for load pins alone, and only for those the driver reaches, itself aside.
#[test]
fn elmore_delays_are_of_reached_loads() {
    let net = Network {
        node_caps: floats(&[0.0, 1e-15, 1e-15, 1e-15]),
        resistors: vec![(0, 1, f(10.0)), (1, 2, f(10.0))],
    };
    let pins = NodePins { pin_cap: floats(&[0.0; 4]), is_load: vec![true, true, false, true] };
    let p = reduce_to_pi_elmore(&net, 0, &pins);
    assert_eq!(p.elmore.iter().map(|(n, _)| *n).collect::<Vec<_>>(), vec![1]);
}

/// A pin's capacitance adds to its node's.
#[test]
fn pin_capacitances_add_to_their_nodes() {
    let bare = Network { node_caps: floats(&[0.0, 3e-15]), resistors: vec![(0, 1, f(50.0))] };
    let with = Network { node_caps: floats(&[0.0, 0.0]), resistors: vec![(0, 1, f(50.0))] };
    let none = NodePins { pin_cap: floats(&[0.0, 0.0]), is_load: vec![false, true] };
    let some = NodePins { pin_cap: floats(&[0.0, 3e-15]), is_load: vec![false, true] };
    assert_eq!(reduce_to_pi_elmore(&bare, 0, &none), reduce_to_pi_elmore(&with, 0, &some));
}

/// The resistor that closes a loop is ignored, whatever its ohms; another one is not.
#[test]
fn the_ohms_of_a_loop_resistor_do_not_matter() {
    let reduced = |ohms: [f32; 3]| {
        let net = Network {
            node_caps: floats(&[0.0, 1e-15, 2e-15]),
            resistors: vec![(0, 1, f(ohms[0])), (1, 2, f(ohms[1])), (2, 0, f(ohms[2]))],
        };
        reduce_to_pi_elmore(&net, 0, &NodePins { pin_cap: floats(&[0.0; 3]), is_load: vec![false, true, true] })
    };
    let kept = reduced([10.0, 20.0, 30.0]);
    assert_eq!(reduced([10.0, 20.0, 7.5]), kept);
    assert_eq!(reduced([10.0, 20.0, 1e9]), kept);
    assert_ne!(reduced([10.0, 25.0, 30.0]), kept);
}

/// Every load that resistors connect to the driver has one Elmore delay, over loops and parallel
/// resistors too.
#[test]
fn every_connected_load_has_one_elmore_delay() {
    let net = Network {
        node_caps: floats(&[0.0, 1e-15, 1e-15, 1e-15, 1e-15, 1e-15]),
        resistors: vec![
            (2, 0, f(10.0)),
            (0, 1, f(10.0)),
            (1, 2, f(10.0)),
            (2, 3, f(10.0)),
            (3, 2, f(20.0)),
            (3, 3, f(5.0)),
            (4, 5, f(10.0)),
        ],
    };
    let pins = NodePins { pin_cap: floats(&[0.0; 6]), is_load: vec![true; 6] };
    let p = reduce_to_pi_elmore(&net, 0, &pins);
    let mut nodes: Vec<usize> = p.elmore.iter().map(|(n, _)| *n).collect();
    nodes.sort_unstable();
    assert_eq!(nodes, vec![1, 2, 3]);
}

#[test]
fn networks_and_models_copy() {
    let net = Network { node_caps: floats(&[0.0, 1e-15]), resistors: vec![(0, 1, f(10.0))] };
    assert_eq!(net.clone(), net);
    assert_eq!(Network::default(), Network { node_caps: vec![], resistors: vec![] });
    let p = reduce_to_pi_elmore(&net, 0, &NodePins { pin_cap: floats(&[0.0; 2]), is_load: vec![false, true] });
    assert_eq!(p.clone(), p);
    assert_eq!(p.elmore.len(), 1);
}
