use sheaf_automata::splitmix::simple_random;

#[test]
fn splitmix_values_of_small_seeds() {
    assert_eq!(simple_random(0), 0xe220a8397b1dcdaf);
    assert_eq!(simple_random(1), 10451216379200822465);
    assert_eq!(simple_random(42), 13679457532755275413);
}

#[test]
fn splitmix_wraps_past_the_word_size() {
    assert_eq!(simple_random(usize::MAX), 16490336266968443936);
}

#[test]
fn splitmix_is_a_function_of_the_seed() {
    assert_eq!(simple_random(7), simple_random(7));
    assert_ne!(simple_random(7), simple_random(8));
}
