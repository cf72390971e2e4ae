use virtual_dom::text::{compare, Rank};

#[test]
fn equal_strings_are_the_same() {
    assert_eq!(compare("", ""), Rank::Same);
    assert_eq!(compare("class", "class"), Rank::Same);
}

#[test]
fn a_prefix_comes_first() {
    assert_eq!(compare("", "a"), Rank::Before);
    assert_eq!(compare("id", "ident"), Rank::Before);
    assert_eq!(compare("ident", "id"), Rank::After);
}

#[test]
fn the_first_differing_character_decides() {
    assert_eq!(compare("abc", "abd"), Rank::Before);
    assert_eq!(compare("b", "abc"), Rank::After);
    assert_eq!(compare("Z", "a"), Rank::Before);
}

#[test]
fn characters_are_compared_by_code_point() {
    assert_eq!(compare("z", "é"), Rank::Before);
    assert_eq!(compare("é", "日"), Rank::Before);
    assert_eq!(compare("日本", "日"), Rank::After);
}

#[test]
fn compare_agrees_with_the_order_of_std() {
    let words = ["", "a", "ab", "abc", "b", "ba", "é", "日本語", "A", "0"];
    for x in words {
        for y in words {
            let expected = match x.chars().cmp(y.chars()) {
                std::cmp::Ordering::Less => Rank::Before,
                std::cmp::Ordering::Equal => Rank::Same,
                std::cmp::Ordering::Greater => Rank::After,
            };
            assert_eq!(compare(x, y), expected);
        }
    }
}
