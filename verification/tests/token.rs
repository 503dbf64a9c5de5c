use pagedb::token::{tokenize, Keywords, Token, Where, NO_CONDITION, NO_TABLE};

fn selection(token: &Token) -> (String, Option<(String, String)>) {
    match token {
        Token::Keywords(Keywords::Select { from, condition }) => (
            from.clone(),
            condition.as_ref().map(|w| (w.key.clone(), w.value.clone())),
        ),
        Token::String(s) => panic!("unexpected text token {:?}", s),
    }
}

#[test]
fn select_from_table() {
    let tokens = tokenize("select * from users").unwrap();
    assert_eq!(tokens.len(), 1);
    assert_eq!(selection(&tokens[0]), ("users".to_string(), None));
}

#[test]
fn select_with_condition() {
    let tokens = tokenize("SELECT name FROM people WHERE id=42").unwrap();
    assert_eq!(tokens.len(), 1);
    assert_eq!(
        selection(&tokens[0]),
        ("people".to_string(), Some(("id".to_string(), "42".to_string())))
    );
}

#[test]
fn spaces_and_case_do_not_matter() {
    let tokens = tokenize("  SeLeCt   a   FrOm   t   wHeRe  k=v  ").unwrap();
    assert_eq!(tokens.len(), 1);
    assert_eq!(selection(&tokens[0]), ("t".to_string(), Some(("k".to_string(), "v".to_string()))));
}

#[test]
fn text_without_select_has_no_tokens() {
    assert_eq!(tokenize("").unwrap().len(), 0);
    assert_eq!(tokenize("insert into t").unwrap().len(), 0);
    assert_eq!(tokenize("selects a from t").unwrap().len(), 0);
}

#[test]
fn every_select_is_a_selection() {
    let tokens = tokenize("select a from select b from t").unwrap();
    assert_eq!(tokens.len(), 2);
    assert_eq!(selection(&tokens[0]), ("select".to_string(), None));
    assert_eq!(selection(&tokens[1]), ("t".to_string(), None));
}

#[test]
fn selection_without_table() {
    assert_eq!(tokenize("select").unwrap_err(), NO_TABLE);
    assert_eq!(tokenize("select a").unwrap_err(), NO_TABLE);
    assert_eq!(tokenize("select a from").unwrap_err(), NO_TABLE);
    assert_eq!(tokenize("select a into t").unwrap_err(), NO_TABLE);
    assert_eq!(NO_TABLE, "Parse error: no tables specified");
}

#[test]
fn where_without_condition() {
    assert_eq!(tokenize("select a from t where").unwrap_err(), NO_CONDITION);
    assert_eq!(tokenize("select a from t where idis42").unwrap_err(), NO_CONDITION);
}

#[test]
fn words_of_more_than_one_byte_to_a_letter() {
    let tokens = tokenize("select é from tabellé where schlüssel=wért").unwrap();
    assert_eq!(
        selection(&tokens[0]),
        ("tabellé".to_string(), Some(("schlüssel".to_string(), "wért".to_string())))
    );
}

#[test]
fn condition_is_cut_at_the_first_equals_sign() {
    let w = Where::parse("a=b=c");
    assert_eq!(w.key, "a");
    assert_eq!(w.value, "b=c");
    let w = Where::parse("=");
    assert_eq!(w.key, "");
    assert_eq!(w.value, "");
}
