use babel_crypt::model::{EOF_SYM, Model, Order1Model};

#[test]
fn a_new_model_has_equal_slots() {
    let m = Model::new();
    assert_eq!(m.total(), 257);
    assert_eq!(m.sym_range(0), (0, 1, 257));
    assert_eq!(m.sym_range(EOF_SYM), (256, 257, 257));
    assert_eq!(m.find_sym(65), 65);
    assert_eq!(m.find_sym(256), 256);
}

#[test]
fn a_seen_symbol_widens() {
    let mut m = Model::new();
    m.update(65);
    assert_eq!(m.sym_range(65), (65, 67, 258));
    assert_eq!(m.sym_range(66), (67, 68, 258));
    assert_eq!(m.find_sym(66), 65);
}

#[test]
fn frequencies_are_halved_at_the_limit() {
    let mut m = Model::new();
    for _ in 0..16126 {
        m.update(0);
    }
    assert_eq!(m.sym_range(0), (0, 16127, 16383));
    m.update(0);
    assert_eq!(m.sym_range(0), (0, 8064, 8064 + 256));
    assert_eq!(m.sym_range(1), (8064, 8065, 8064 + 256));
}

#[test]
fn contexts_are_apart() {
    let mut models = Order1Model::new();
    models.update(3, 9);
    assert_eq!(models.context(3).sym_range(9), (9, 11, 258));
    assert_eq!(models.context(4).sym_range(9), (9, 10, 257));
}
