use yarte_text::helpers::Aligned256;

#[test]
fn wrapper_holds_its_value() {
    let buf = Aligned256([7u8; 4]);
    assert_eq!(buf.0, [7u8; 4]);
    let Aligned256(inner) = Aligned256("x");
    assert_eq!(inner, "x");
}
