use rupert::footnotes::Footnotes;
use rupert::section::Sections;
use rupert::widget::{listing, FootnoteIndices};

#[test]
fn superscript_labels() {
    assert_eq!("¹", Footnotes::index_to_superscript(0));
    assert_eq!("¹⁰", Footnotes::index_to_superscript(9));
    assert_eq!("¹²³", Footnotes::index_to_superscript(122));
}

#[test]
fn reference_is_idempotent() {
    let mut f = Footnotes::new();
    let a = f.reference("a");
    let again = f.reference("a");
    assert_eq!(a, again);
    assert_eq!(1, f.len());
}

#[test]
fn extraction_is_sorted_and_clears() {
    let mut f = Footnotes::new();
    let x = f.reference("x");
    let y = f.reference("y");
    assert_eq!(vec![x, y], f.extract_references());
    // referring in the other order gives the same sorted result
    f.reference("y");
    f.reference("x");
    assert_eq!(vec![0, 1], f.extract_references());
    assert_eq!(Vec::<usize>::new(), f.extract_references());
}

#[test]
fn definition_before_and_after_reference() {
    let mut f = Footnotes::new();
    let d = f.definition("late", Sections { sections: vec![], inner_margin: 1 });
    assert_eq!(0, d);
    let r = f.reference("early");
    assert_eq!(1, r);
    assert!(f.lookup(1).is_none());
    let d2 = f.definition("early", Sections { sections: vec![], inner_margin: 0 });
    assert_eq!(1, d2);
    assert_eq!(0, f.lookup(1).unwrap().inner_margin);
    assert!(f.lookup(7).is_none());
    // a second definition replaces the first
    f.definition("late", Sections { sections: vec![], inner_margin: 5 });
    assert_eq!(5, f.lookup(0).unwrap().inner_margin);
    // definitions are not references
    assert_eq!(vec![1], f.extract_references());
}

#[test]
fn listing_keeps_defined_footnotes() {
    let mut f = Footnotes::new();
    f.reference("a");
    f.definition("b", Sections { sections: vec![], inner_margin: 1 });
    let entries = listing(&f, &vec![0, 1]);
    assert_eq!(1, entries.len());
    assert_eq!(("²".to_string(), 1), entries[0]);
}

#[test]
fn footnote_indices_iterate_in_order() {
    let v: Vec<usize> = FootnoteIndices(vec![2, 5]).into_iter().collect();
    assert_eq!(vec![2, 5], v);
}
