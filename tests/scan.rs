use jsmn_rs::{jsmn_parse, JsmnErr, JsmnParser, JsmnTok, JsmnType, JSMN_NO_SUPERIOR};

fn tok(typ: JsmnType, start: i32, end: i32, size: i32, parent: i32) -> JsmnTok {
    JsmnTok { typ, start, end, size, parent }
}

fn parse_fresh(json: &str, capacity: usize) -> (Result<usize, JsmnErr>, Vec<JsmnTok>, JsmnParser) {
    let mut parser = JsmnParser::new();
    let mut tokens = vec![JsmnTok::new(); capacity];
    let r = jsmn_parse(&mut parser, json, &mut tokens);
    (r, tokens, parser)
}

#[test]
fn test_parse() {
    let mut parser = JsmnParser::new();
    let json = "{\"test\":1}";
    let mut tokens: [JsmnTok; 20] = [Default::default(); 20];

    let result = jsmn_parse(&mut parser, json, &mut tokens);

    println!("{:?}", &tokens[..]);
    println!("{:?}", result);
    assert_eq!(result, Ok(3));
}

#[test]
fn literal_object_with_one_key() {
    let (r, t, _) = parse_fresh("{\"test\":1}", 20);
    assert_eq!(r, Ok(3));
    assert_eq!(t[0], tok(JsmnType::JsmnObject, 0, 10, 2, -1));
    assert_eq!(t[1], tok(JsmnType::JsmnString, 2, 6, 0, 0));
    assert_eq!(t[2], tok(JsmnType::JsmnPrimitive, 8, 9, 0, 0));
    assert_eq!(t[3], JsmnTok::new());
}

#[test]
fn new_and_default_agree() {
    assert_eq!(JsmnTok::new(), JsmnTok::default());
    assert_eq!(JsmnTok::new(), tok(JsmnType::JsmnUndefined, 0, 0, 0, 0));
    let p = JsmnParser::new();
    assert_eq!(p, JsmnParser::default());
    assert_eq!(p.pos, 0);
    assert_eq!(p.toknext, 0);
    assert_eq!(p.toksuper, JSMN_NO_SUPERIOR);
}

#[test]
fn count_of_a_nested_document() {
    let json = " {\"a\": [1, \"x\", true], \"b\": null, \"c\": {}} ";
    let (r, t, p) = parse_fresh(json, 16);
    assert_eq!(r, Ok(10));
    assert_eq!(t[0], tok(JsmnType::JsmnObject, 1, 42, 6, -1));
    assert_eq!(t[2], tok(JsmnType::JsmnArray, 7, 21, 3, 0));
    assert_eq!(t[4], tok(JsmnType::JsmnString, 12, 13, 0, 2));
    assert_eq!(t[5], tok(JsmnType::JsmnPrimitive, 16, 20, 0, 2));
    assert_eq!(t[9], tok(JsmnType::JsmnObject, 39, 41, 0, 0));
    assert_eq!(p.pos, json.len());
    assert_eq!(p.toksuper, JSMN_NO_SUPERIOR);
}

#[test]
fn scanning_again_after_success_changes_nothing() {
    let json = "[1,{\"k\":\"v\"}]";
    let mut parser = JsmnParser::new();
    let mut tokens = vec![JsmnTok::new(); 8];
    let first = jsmn_parse(&mut parser, json, &mut tokens);
    let before = tokens.clone();
    let state = parser;
    let second = jsmn_parse(&mut parser, json, &mut tokens);
    assert_eq!(first, Ok(5));
    assert_eq!(second, Ok(5));
    assert_eq!(tokens, before);
    assert_eq!(parser, state);
}

#[test]
fn split_input_resumes_to_the_same_tokens() {
    let whole = "{\"a\":1}";
    let (r_whole, t_whole, _) = parse_fresh(whole, 10);

    let mut parser = JsmnParser::new();
    let mut tokens = vec![JsmnTok::new(); 10];
    let first = jsmn_parse(&mut parser, "{\"a\":1", &mut tokens);
    assert_eq!(first, Err(JsmnErr::JsmErrorPart));
    assert_eq!(parser.pos, 5);
    let second = jsmn_parse(&mut parser, whole, &mut tokens);
    assert_eq!(second, r_whole);
    assert_eq!(second, Ok(3));
    assert_eq!(tokens, t_whole);
}

#[test]
fn split_inside_a_string_resumes() {
    let whole = "[\"abc\",2]";
    let (r_whole, t_whole, _) = parse_fresh(whole, 5);
    let mut parser = JsmnParser::new();
    let mut tokens = vec![JsmnTok::new(); 5];
    assert_eq!(jsmn_parse(&mut parser, "[\"ab", &mut tokens), Err(JsmnErr::JsmErrorPart));
    assert_eq!(parser.pos, 1);
    assert_eq!(jsmn_parse(&mut parser, whole, &mut tokens), r_whole);
    assert_eq!(tokens, t_whole);
}

#[test]
fn capacity_exhaustion_then_larger_array() {
    let (r, _, p) = parse_fresh("[1,2,3]", 1);
    assert_eq!(r, Err(JsmnErr::JsmErrorNoMem));
    assert_eq!(p.pos, 1);
    assert_eq!(p.toknext, 1);
    let (r, t, _) = parse_fresh("[1,2,3]", 4);
    assert_eq!(r, Ok(4));
    assert_eq!(t[0], tok(JsmnType::JsmnArray, 0, 7, 3, -1));
    assert_eq!(t[3], tok(JsmnType::JsmnPrimitive, 5, 6, 0, 0));
}

#[test]
fn capacity_exhaustion_resumes_with_more_slots() {
    let json = "[1,2,3]";
    let mut parser = JsmnParser::new();
    let mut small = vec![JsmnTok::new(); 2];
    assert_eq!(jsmn_parse(&mut parser, json, &mut small), Err(JsmnErr::JsmErrorNoMem));
    let mut tokens = vec![JsmnTok::new(); 4];
    tokens[..2].copy_from_slice(&small);
    assert_eq!(jsmn_parse(&mut parser, json, &mut tokens), Ok(4));
    let (_, t_whole, _) = parse_fresh(json, 4);
    assert_eq!(tokens, t_whole);
}

#[test]
fn missing_value_is_invalid() {
    let mut parser = JsmnParser::new();
    let mut tokens = vec![JsmnTok::new(); 10];
    assert_eq!(jsmn_parse(&mut parser, "{\"a\":}", &mut tokens), Err(JsmnErr::JsmErrorInval));
    assert_eq!(jsmn_parse(&mut parser, "{\"a\":}", &mut tokens), Err(JsmnErr::JsmErrorInval));
}

#[test]
fn missing_closing_brace_is_partial() {
    let (r, _, _) = parse_fresh("{\"a\":1", 10);
    assert_eq!(r, Err(JsmnErr::JsmErrorPart));
    let (r, _, _) = parse_fresh("[1,[2]", 10);
    assert_eq!(r, Err(JsmnErr::JsmErrorPart));
}

#[test]
fn nested_arrays_chain_parents() {
    let depth: usize = 6;
    let json = format!("{}1{}", "[".repeat(depth), "]".repeat(depth));
    let (r, t, _) = parse_fresh(&json, depth + 1);
    assert_eq!(r, Ok(depth + 1));
    for i in 0..depth {
        let d = depth as i32;
        let k = i as i32;
        assert_eq!(t[i], tok(JsmnType::JsmnArray, k, 2 * d + 1 - k, 1, k - 1));
    }
    assert_eq!(t[depth], tok(JsmnType::JsmnPrimitive, 6, 7, 0, 5));
}

#[test]
fn empty_containers_and_empty_input() {
    assert_eq!(parse_fresh("", 4).0, Ok(0));
    assert_eq!(parse_fresh("  \n\t ", 4).0, Ok(0));
    let (r, t, _) = parse_fresh("[]", 4);
    assert_eq!(r, Ok(1));
    assert_eq!(t[0], tok(JsmnType::JsmnArray, 0, 2, 0, -1));
    let (r, t, _) = parse_fresh("{}", 1);
    assert_eq!(r, Ok(1));
    assert_eq!(t[0], tok(JsmnType::JsmnObject, 0, 2, 0, -1));
}

#[test]
fn mismatched_or_stray_closers_are_invalid() {
    assert_eq!(parse_fresh("[}", 4).0, Err(JsmnErr::JsmErrorInval));
    assert_eq!(parse_fresh("{]", 4).0, Err(JsmnErr::JsmErrorInval));
    assert_eq!(parse_fresh("]", 4).0, Err(JsmnErr::JsmErrorInval));
    assert_eq!(parse_fresh("[1]]", 4).0, Err(JsmnErr::JsmErrorInval));
}

#[test]
fn keys_must_be_strings() {
    assert_eq!(parse_fresh("{1:2}", 4).0, Err(JsmnErr::JsmErrorInval));
    assert_eq!(parse_fresh("{[1]:2}", 4).0, Err(JsmnErr::JsmErrorInval));
    assert_eq!(parse_fresh("{\"a\":{}}", 4).0, Ok(3));
}

#[test]
fn unprintable_byte_in_primitive_is_invalid() {
    let (r, _, p) = parse_fresh("[tr\u{1}ue]", 4);
    assert_eq!(r, Err(JsmnErr::JsmErrorInval));
    assert_eq!(p.pos, 1);
    assert_eq!(parse_fresh("caf\u{e9}", 4).0, Err(JsmnErr::JsmErrorInval));
}

#[test]
fn unterminated_string_is_partial() {
    let (r, _, p) = parse_fresh("\"abc", 4);
    assert_eq!(r, Err(JsmnErr::JsmErrorPart));
    assert_eq!(p.pos, 0);
    assert_eq!(parse_fresh("\"ab\\", 4).0, Err(JsmnErr::JsmErrorPart));
}

#[test]
fn escaped_quote_stays_inside_string() {
    let (r, t, _) = parse_fresh("\"a\\\"b\"", 2);
    assert_eq!(r, Ok(1));
    assert_eq!(t[0], tok(JsmnType::JsmnString, 1, 5, 0, -1));
}

#[test]
fn several_top_level_values_are_siblings() {
    let (r, t, _) = parse_fresh("1 true \"x\"", 4);
    assert_eq!(r, Ok(3));
    assert_eq!(t[0], tok(JsmnType::JsmnPrimitive, 0, 1, 0, -1));
    assert_eq!(t[1], tok(JsmnType::JsmnPrimitive, 2, 6, 0, -1));
    assert_eq!(t[2], tok(JsmnType::JsmnString, 8, 9, 0, -1));
}

#[test]
fn top_level_primitive_ends_at_end_of_input() {
    let (r, t, _) = parse_fresh("-12.5e3", 1);
    assert_eq!(r, Ok(1));
    assert_eq!(t[0], tok(JsmnType::JsmnPrimitive, 0, 7, 0, -1));
}

#[test]
fn compact_document_counts_every_value() {
    let json = "{\"a\":{\"b\":[1,2]},\"c\":\"d\"}";
    let (r, t, _) = parse_fresh(json, 9);
    assert_eq!(r, Ok(9));
    assert_eq!(t[0], tok(JsmnType::JsmnObject, 0, json.len() as i32, 4, -1));
    assert_eq!(t[2], tok(JsmnType::JsmnObject, 5, 16, 2, 0));
    assert_eq!(t[4], tok(JsmnType::JsmnArray, 10, 15, 2, 2));
    assert_eq!(t[8], tok(JsmnType::JsmnString, 22, 23, 0, 0));
    assert_eq!(parse_fresh(json, 8).0, Err(JsmnErr::JsmErrorNoMem));
}

#[test]
fn failed_scan_leaves_state_for_the_same_error() {
    let json = "[1,{2:3}]";
    let mut parser = JsmnParser::new();
    let mut tokens = vec![JsmnTok::new(); 8];
    assert_eq!(jsmn_parse(&mut parser, json, &mut tokens), Err(JsmnErr::JsmErrorInval));
    let state = parser;
    let slots = tokens.clone();
    assert_eq!(state.pos, 4);
    assert_eq!(jsmn_parse(&mut parser, json, &mut tokens), Err(JsmnErr::JsmErrorInval));
    assert_eq!(parser, state);
    assert_eq!(tokens, slots);
}
