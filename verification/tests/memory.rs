use arco::memory::{estimated_term_bytes, slot_estimate, SlotEstimate, TermCounts, TermSizes};

#[test]
fn term_bytes_add_up_by_degree() {
    let counts = TermCounts { linear: 10, quadratic: 2, cubic: 1 };
    let sizes = TermSizes { linear: 16, quadratic: 16, cubic: 24 };
    assert_eq!(estimated_term_bytes(counts, sizes), 160 + 32 + 24);
    let none = TermCounts { linear: 0, quadratic: 0, cubic: 0 };
    assert_eq!(estimated_term_bytes(none, sizes), 0);
}

#[test]
fn slot_estimate_of_a_sparse_array() {
    assert_eq!(
        slot_estimate(100, 25, 16),
        SlotEstimate {
            dense_slots: 100,
            active_slots: 25,
            inactive_slots: 75,
            dense_linear_term_bytes: 1600,
            inactive_linear_term_bytes: 1200,
        }
    );
}

#[test]
fn slot_estimate_saturates() {
    let e = slot_estimate(3, 5, 8);
    assert_eq!(e.inactive_slots, 0);
    assert_eq!(e.inactive_linear_term_bytes, 0);
    let big = slot_estimate(usize::MAX, 0, 16);
    assert_eq!(big.dense_linear_term_bytes, usize::MAX);
    assert_eq!(big.inactive_linear_term_bytes, usize::MAX);
}
