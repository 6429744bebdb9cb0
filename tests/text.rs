use alc::text::{prettify_layer_string, words};

#[test]
fn prettify_drops_blank_lines_and_tabs() {
    let s = String::from("\n\t\tA_10 B_10\n   \n\\tC_10\tD_10\n");
    assert_eq!(prettify_layer_string(s), "A_10 B_10\nC_10D_10\n");
}

#[test]
fn words_split_on_whitespace() {
    let v: Vec<char> = "  a bb\tc  ".chars().collect();
    let w = words(&v);
    assert_eq!(w, vec![vec!['a'], vec!['b', 'b'], vec!['c']]);
}

#[test]
fn prettify_follows_str_lines() {
    assert_eq!(prettify_layer_string(String::from("a\r\n")), "a\n");
    assert_eq!(prettify_layer_string(String::from("\u{3000}\n b\r\n")), " b\n");
}
