use cs110l::units::{run_unit, tag_inputs, Collector, ResultUnit};

fn squares(order: &[usize]) -> Option<Vec<u32>> {
    let mut units: Vec<_> = tag_inputs(vec![6u32, 7, 8, 9]).into_iter().map(Some).collect();
    let mut collector = Collector::new(units.len());
    for i in order {
        let unit = units[*i].take().unwrap();
        collector.store(run_unit(unit, |n| n * n));
    }
    collector.finish()
}

#[test]
fn items_travel_with_their_places() {
    let units = tag_inputs(vec!["a", "b"]);
    assert_eq!(units.len(), 2);
    assert_eq!((units[0].idx, units[0].item), (0, "a"));
    assert_eq!((units[1].idx, units[1].item), (1, "b"));
}

#[test]
fn a_result_keeps_the_place_of_its_item() {
    let unit = tag_inputs(vec![3, 4]).pop().unwrap();
    let result = run_unit(unit, |n| n + 1);
    assert_eq!((result.idx, result.res), (1, 5));
}

#[test]
fn the_order_of_results_makes_no_difference() {
    let expected = Some(vec![36, 49, 64, 81]);
    assert_eq!(squares(&[0, 1, 2, 3]), expected);
    assert_eq!(squares(&[3, 2, 1, 0]), expected);
    assert_eq!(squares(&[2, 0, 3, 1]), expected);
}

#[test]
fn a_map_is_not_finished_without_all_results() {
    assert_eq!(squares(&[0, 1, 3]), None);
    assert_eq!(Collector::<u32>::new(0).finish(), Some(vec![]));
}

#[test]
fn results_need_no_default() {
    struct Plain(String);
    let mut collector = Collector::new(1);
    collector.store(ResultUnit { idx: 0, res: Plain("x".to_string()) });
    assert_eq!(collector.finish().unwrap()[0].0, "x");
}
