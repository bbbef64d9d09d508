use ktts::engmatch::{leftmatch, rightmatch};

#[test]
fn pattern_matching() {
    assert!(rightmatch("%", b"ING", 0));
    assert!(rightmatch("%", b"E", 0));
    assert!(rightmatch("%", b"ELYZ", 0));
    assert!(!rightmatch("%", b"IZZ", 0));
    assert!(rightmatch("%L", b"ELZ", 0));
    assert!(!rightmatch("%R", b"ERZ", 0));
    assert!(!rightmatch("%I", b"ING", 0));
    assert!(rightmatch("#", b"AA", 0));
    assert!(!rightmatch("#", b"BA", 0));
    assert!(rightmatch("^", b"B", 0));
    assert!(!rightmatch("^", b"A", 0));
    assert!(rightmatch("+", b"I", 0));
    assert!(!rightmatch("+", b"X", 0));
    assert!(rightmatch(".", b"B", 0));
    assert!(!rightmatch(".", b"A", 0));
    assert!(rightmatch(":", b"CCC", 0));
    assert!(rightmatch(":", b"A", 0));
    assert!(!rightmatch("^%", b"FILY", 0));
    assert!(rightmatch("^%", b"FING", 0));
    assert!(leftmatch("^", b"B", 0));
    assert!(!leftmatch("^", b"A", 0));
    assert!(leftmatch(".", b"B", 0));
    assert!(!leftmatch(".", b"A", 0));
    assert!(leftmatch("+", b"I", 0));
    assert!(leftmatch(":", b"ZZ", 1));
    assert!(leftmatch(":", b"A", 0));
}

#[test]
fn left_context_reads_backwards() {
    assert!(leftmatch("", b"", -1));
    assert!(!leftmatch("A", b"BA", -1));
    assert!(leftmatch("AB", b"XAB", 2));
    assert!(!leftmatch("AB", b"XBA", 2));
    assert!(leftmatch("#B", b"AAB", 2));
    assert!(!leftmatch("?", b"A", 0));
}

#[test]
fn right_context_reads_forwards() {
    assert!(rightmatch("", b"", 5));
    assert!(rightmatch("#:", b"AEIBCD", 0));
    assert!(!rightmatch("A", b"A", 1));
    assert!(rightmatch("%", b"ES", 0));
    assert!(!rightmatch("?", b"A", 0));
}
