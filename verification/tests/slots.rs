use mhr_calculator::data::deco_combination::DecorationCombination;

#[test]
fn deco_comb_compare1() {
    assert_eq!(
        DecorationCombination::is_possible_static(&vec![3, 0, 2, 0], &vec![3, 2, 0, 0]),
        true
    );
}
