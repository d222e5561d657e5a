use std::cell::Cell;

use merkle_pedersen::hashing::{fq_to_str_hex, get_fq_element, FieldElement};
use merkle_pedersen::merkle::{bits_to_integer, create_tree_with_pedersen};
use merkle_pedersen::Error;

fn hx(fe: &FieldElement) -> String {
    fq_to_str_hex(fe)
}

fn fe(lit: &str) -> FieldElement {
    get_fq_element(lit).unwrap()
}

/// A deterministic stand-in hash: pairs are looked up in a table built by
/// the test, so every expected node value is known exactly.
fn table_oracle(
    table: Vec<((FieldElement, FieldElement), FieldElement)>,
) -> impl Fn(FieldElement, FieldElement) -> Result<FieldElement, String> {
    move |a: FieldElement, b: FieldElement| {
        for ((l, r), out) in table.iter() {
            if hx(l) == hx(&a) && hx(r) == hx(&b) {
                return Ok(out.clone());
            }
        }
        Err(format!("unexpected pair ({}, {})", hx(&a), hx(&b)))
    }
}

#[test]
fn single_leaf_root_is_leaf_with_empty_path() {
    let a = fe("7");
    let calls = Cell::new(0u32);
    let oracle = |_x: FieldElement, _y: FieldElement| -> Result<FieldElement, String> {
        calls.set(calls.get() + 1);
        Err("must not be called".to_string())
    };
    let (root, paths, indices) = create_tree_with_pedersen(&vec![a.clone()], oracle).unwrap();
    assert_eq!(hx(&root), hx(&a));
    assert_eq!(paths.len(), 1);
    assert!(paths[0].is_empty());
    assert_eq!(indices, vec![0]);
    assert_eq!(calls.get(), 0);
}

#[test]
fn two_leaves() {
    let a = fe("1");
    let b = fe("2");
    let h1 = fe("0xaa");
    let oracle = table_oracle(vec![((a.clone(), b.clone()), h1.clone())]);
    let (root, paths, indices) =
        create_tree_with_pedersen(&vec![a.clone(), b.clone()], oracle).unwrap();
    assert_eq!(hx(&root), hx(&h1));
    assert_eq!(paths.len(), 2);
    assert_eq!(paths[0].iter().map(hx).collect::<Vec<_>>(), vec![hx(&b)]);
    assert_eq!(paths[1].iter().map(hx).collect::<Vec<_>>(), vec![hx(&a)]);
    assert_eq!(indices, vec![0, 1]);
}

#[test]
fn three_leaves_odd_carry() {
    let a = fe("1");
    let b = fe("2");
    let c = fe("3");
    let h1 = fe("0xaa");
    let root_h = fe("0xbb");
    let oracle = table_oracle(vec![
        ((a.clone(), b.clone()), h1.clone()),
        ((h1.clone(), c.clone()), root_h.clone()),
    ]);
    let (root, paths, indices) =
        create_tree_with_pedersen(&vec![a.clone(), b.clone(), c.clone()], oracle).unwrap();
    assert_eq!(hx(&root), hx(&root_h));
    // leaf a: sibling b at its own level, then sibling c one level up;
    // left at both pairings.
    assert_eq!(
        paths[0].iter().map(hx).collect::<Vec<_>>(),
        vec![hx(&b), hx(&c)]
    );
    assert_eq!(indices[0], 0);
    // leaf b: right of (a, b), then its node h1 is left of (h1, c): the
    // low bit (own level) is 1, the next bit 0.
    assert_eq!(
        paths[1].iter().map(hx).collect::<Vec<_>>(),
        vec![hx(&a), hx(&c)]
    );
    assert_eq!(indices[1], 1);
    // leaf c: carried unchanged past its own level, then right of (h1, c).
    assert_eq!(paths[2].iter().map(hx).collect::<Vec<_>>(), vec![hx(&h1)]);
    assert_eq!(indices[2], 1);
}

#[test]
fn four_leaves() {
    let a = fe("1");
    let b = fe("2");
    let c = fe("3");
    let d = fe("4");
    let h1 = fe("0xa1");
    let h2 = fe("0xa2");
    let r = fe("0xa3");
    let oracle = table_oracle(vec![
        ((a.clone(), b.clone()), h1.clone()),
        ((c.clone(), d.clone()), h2.clone()),
        ((h1.clone(), h2.clone()), r.clone()),
    ]);
    let leaves = vec![a.clone(), b.clone(), c.clone(), d.clone()];
    let (root, paths, indices) = create_tree_with_pedersen(&leaves, oracle).unwrap();
    assert_eq!(hx(&root), hx(&r));
    assert_eq!(paths.len(), 4);
    assert_eq!(indices.len(), 4);
    assert_eq!(
        paths[0].iter().map(hx).collect::<Vec<_>>(),
        vec![hx(&b), hx(&h2)]
    );
    assert_eq!(
        paths[3].iter().map(hx).collect::<Vec<_>>(),
        vec![hx(&c), hx(&h1)]
    );
    assert_eq!(indices, vec![0, 1, 2, 3]);
}

#[test]
fn five_leaves_double_carry() {
    let a = fe("1");
    let b = fe("2");
    let c = fe("3");
    let d = fe("4");
    let e = fe("5");
    let h1 = fe("0xa1");
    let h2 = fe("0xa2");
    let h3 = fe("0xa3");
    let r = fe("0xa4");
    let oracle = table_oracle(vec![
        ((a.clone(), b.clone()), h1.clone()),
        ((c.clone(), d.clone()), h2.clone()),
        ((h1.clone(), h2.clone()), h3.clone()),
        ((h3.clone(), e.clone()), r.clone()),
    ]);
    let leaves = vec![a.clone(), b.clone(), c.clone(), d.clone(), e.clone()];
    let (root, paths, indices) = create_tree_with_pedersen(&leaves, oracle).unwrap();
    assert_eq!(hx(&root), hx(&r));
    // leaf e is carried twice, so its path holds only the last sibling.
    assert_eq!(paths[4].iter().map(hx).collect::<Vec<_>>(), vec![hx(&h3)]);
    assert_eq!(indices[4], 1);
    // leaf d: right of (c, d), right of (h1, h2), left of (h3, e).
    assert_eq!(
        paths[3].iter().map(hx).collect::<Vec<_>>(),
        vec![hx(&c), hx(&h1), hx(&e)]
    );
    assert_eq!(indices[3], 3);
    assert_eq!(indices[0], 0);
}

#[test]
fn empty_input_fails_without_oracle_calls() {
    let calls = Cell::new(0u32);
    let oracle = |_x: FieldElement, _y: FieldElement| -> Result<FieldElement, String> {
        calls.set(calls.get() + 1);
        Err("must not be called".to_string())
    };
    let e = create_tree_with_pedersen(&Vec::new(), oracle).unwrap_err();
    assert!(matches!(e, Error::EmptyInput));
    assert_eq!(calls.get(), 0);
}

#[test]
fn failing_oracle_aborts_the_build() {
    let a = fe("1");
    let b = fe("2");
    let oracle =
        |_x: FieldElement, _y: FieldElement| -> Result<FieldElement, String> {
            Err("nargo failed".to_string())
        };
    let e = create_tree_with_pedersen(&vec![a, b], oracle).unwrap_err();
    assert!(matches!(e, Error::HashOracleError(m) if m == "nargo failed"));
}

#[test]
fn failing_oracle_on_second_level() {
    let a = fe("1");
    let b = fe("2");
    let c = fe("3");
    let h1 = fe("0xaa");
    // Only the first pair is known: the second level's call fails.
    let oracle = table_oracle(vec![((a.clone(), b.clone()), h1.clone())]);
    let e = create_tree_with_pedersen(&vec![a, b, c], oracle).unwrap_err();
    assert!(matches!(e, Error::HashOracleError(_)));
}

#[test]
fn bits_to_integer_empty_is_zero() {
    assert_eq!(bits_to_integer(Vec::new()), 0);
}

#[test]
fn bits_to_integer_reads_msb_first() {
    assert_eq!(bits_to_integer(vec![1, 0]), 2);
    assert_eq!(bits_to_integer(vec![0, 1]), 1);
    assert_eq!(bits_to_integer(vec![1, 1, 0]), 6);
}

#[test]
fn bits_to_integer_ignores_non_one_entries() {
    assert_eq!(bits_to_integer(vec![2, 1]), 1);
}
