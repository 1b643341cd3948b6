use check_ru::menu::DayMenu;
use check_ru::fetcher::{
    add_object_fields, decode_unicode_escapes, dwr_reply_is_readable, dwr_request_body, escape_replacement,
    extract_field, get_hardcoded_name_fallback, home_url, meal_from_decoded, menu_from_replies,
    menu_request_body, menu_service_url, name_request_body, name_service_url,
    parse_dwr_response, parse_smart_meal, restaurant_name, restaurant_name_from_capture,
    unescape_entities, usable_field_value,
};

const LUNCH_TUESDAY: &str = r#"{cdpdia:"Arroz/Feij\u00E3o<br>Frango grelhado<br>Op\u00E7\u00E3o: Omelete<br>Pur\u00EA<br>Salada de alface<br>Pudim<br>P\u00E3o, suco",diasemana:3,dtainismncdp:"11\/03\/2025",tiprfi:"A",vlrclorfi:1200}"#;

fn reply(objects: &[&str]) -> String {
    let inner: Vec<String> = objects
        .iter()
        .map(|o| o.trim_start_matches('{').trim_end_matches('}').to_string())
        .collect();
    format!(
        "//#DWR-REPLY\ndwr.engine._remoteHandleCallback('0','0',[{{{}}}]);\n",
        inner.join("},{")
    )
}

#[test]
fn extract_field_reads_quoted_and_bare_values() {
    let obj = r#"cdpdia:"Arroz",diasemana:2,tiprfi:"J""#;
    assert_eq!(extract_field(obj, "cdpdia"), "Arroz");
    assert_eq!(extract_field(obj, "diasemana"), "2");
    assert_eq!(extract_field(obj, "tiprfi"), "J");
    assert_eq!(extract_field(obj, "missing"), "");
}

#[test]
fn extract_field_skips_null() {
    assert_eq!(extract_field("cdpdia:null,x:1", "cdpdia"), "");
    // A quoted null is skipped by the quoted form; the bare form then keeps the quotes.
    assert_eq!(extract_field(r#"cdpdia:"null",x:1"#, "cdpdia"), "\"null\"");
}

#[test]
fn extract_field_bare_value_stops_at_brace() {
    assert_eq!(extract_field("vlrclorfi:850}", "vlrclorfi"), "850");
}

#[test]
fn escapes_are_decoded() {
    assert_eq!(decode_unicode_escapes(r"Feij\u00E3o"), "Feijão");
    assert_eq!(decode_unicode_escapes(r"a\u00e7b"), "açb");
    assert_eq!(decode_unicode_escapes(r"no escapes"), "no escapes");
    assert_eq!(decode_unicode_escapes(r"\u00"), r"\u00");
}

#[test]
fn escape_replacement_cases() {
    assert_eq!(escape_replacement("00E3"), "ã");
    assert_eq!(escape_replacement("0041"), "A");
    assert_eq!(escape_replacement("D800"), "?");
    assert_eq!(escape_replacement("zz"), "\u{0}");
}

#[test]
fn fallback_names() {
    assert_eq!(get_hardcoded_name_fallback(1), "Central - São Paulo");
    assert_eq!(get_hardcoded_name_fallback(13), "EACH - USP Leste");
    assert_eq!(get_hardcoded_name_fallback(5), "Restaurante das Químicas - Butantã");
    assert_eq!(get_hardcoded_name_fallback(20), "RU de Bauru - Bauru");
    assert_eq!(get_hardcoded_name_fallback(23), "Oceanográfico - São Paulo");
    assert_eq!(get_hardcoded_name_fallback(10), "Restaurante (ID 10)");
    assert_eq!(get_hardcoded_name_fallback(4294967295), "Restaurante (ID 4294967295)");
}

#[test]
fn fallback_names_are_all_different() {
    let names: Vec<String> = (0u32..40).map(get_hardcoded_name_fallback).collect();
    for i in 0..names.len() {
        for j in (i + 1)..names.len() {
            assert_ne!(names[i], names[j]);
        }
    }
    assert_ne!(get_hardcoded_name_fallback(1), get_hardcoded_name_fallback(4294967295));
}

#[test]
fn entities_are_unescaped() {
    assert_eq!(unescape_entities("Cl&iacute;nicas &amp; F&aacute;"), "Clínicas &amp; Fá");
    assert_eq!(unescape_entities("&Ccedil;&ccedil;&atilde;&otilde;"), "Ççãõ");
}

#[test]
fn restaurant_name_from_captured_value() {
    assert_eq!(restaurant_name_from_capture(5, Some("Qu&iacute;mica".to_string())), "Química");
    assert_eq!(
        restaurant_name_from_capture(5, Some("null".to_string())),
        "Restaurante das Químicas - Butantã"
    );
    assert_eq!(
        restaurant_name_from_capture(5, Some(String::new())),
        "Restaurante das Químicas - Butantã"
    );
    assert_eq!(restaurant_name_from_capture(99, None), "Restaurante (ID 99)");
}

#[test]
fn restaurant_name_from_reply() {
    let reply = r#"dwr.engine._remoteHandleCallback('0','0',{nomrtn:"Restaurante Central"});"#;
    assert_eq!(restaurant_name(13, reply), "Restaurante Central");
    let reply = r#"{nomrtn:"Restaurante Qu&iacute;mica",x:"y"}"#;
    assert_eq!(restaurant_name(13, reply), "Restaurante Química");
    assert_eq!(restaurant_name(13, r#"{nomrtn:null}"#), "EACH - USP Leste");
    assert_eq!(restaurant_name(13, r#"{nomrtn:"null"}"#), "EACH - USP Leste");
    assert_eq!(restaurant_name(13, r#"{nomrtn:""}"#), "EACH - USP Leste");
    assert_eq!(restaurant_name(99, "no name here"), "Restaurante (ID 99)");
    let m = menu_from_replies(13, reply, &reply_of_nothing()).unwrap();
    assert_eq!(m.restaurant_name, "Restaurante Química");
}

fn reply_of_nothing() -> String {
    "dwr.engine._remoteHandleCallback('0','0',[]);".to_string()
}

#[test]
fn request_addresses_and_bodies() {
    assert_eq!(home_url(13), "https://uspdigital.usp.br/rucard/Jsp/cardapioSAS.jsp?codrtn=13");
    assert!(name_service_url().ends_with("CardapioControleDWR.obterRestauranteUsp.dwr"));
    assert!(menu_service_url().ends_with("CardapioControleDWR.obterCardapioRestUSP.dwr"));
    let expected = "callCount=1\nwindowName=\nc0-scriptName=CardapioControleDWR\nc0-methodName=obterCardapioRestUSP\nc0-id=0\nc0-param0=string:7\nbatchId=0\ninstanceId=0\npage=%2Frucard%2FJsp%2FcardapioSAS.jsp%3Fcodrtn%3D7\nscriptSessionId=";
    assert_eq!(menu_request_body(7), expected);
    assert_eq!(name_request_body(7), expected.replace("obterCardapioRestUSP", "obterRestauranteUsp"));
    assert_eq!(dwr_request_body("m", 0), expected.replace("obterCardapioRestUSP", "m").replace('7', "0"));
}

#[test]
fn smart_meal_reads_all_parts() {
    let m = parse_smart_meal(
        r"Arroz/Feij\u00E3o<br>Frango grelhado<br>Op\u00E7\u00E3o: Omelete<br>Pur\u00EA<br>Salada de alface<br>Pudim<br>P\u00E3o, suco",
        1200,
        "A",
    );
    assert_eq!(m.opcoes, vec!["Arroz".to_string(), "Feijão".to_string()]);
    assert_eq!(m.guarnicao, "Frango grelhado");
    assert_eq!(m.guarnicao_pvt, "Omelete");
    assert_eq!(m.acompanhamento, "Purê");
    assert_eq!(m.salada, "Salada de alface");
    assert_eq!(m.sobremesa, "Pudim");
    assert_eq!(m.outros, vec!["Pão".to_string(), "suco".to_string()]);
    assert_eq!(m.calories, 1200);
    assert_eq!(m.meal_type, "A");
}

#[test]
fn smart_meal_cuts_at_stars_and_cleans_breaks() {
    let m = meal_from_decoded("  Arroz \\ Feijão<br><br>Carne ** Observação<br>x", 0, "J");
    assert_eq!(m.opcoes, vec!["Arroz".to_string(), "Feijão".to_string()]);
    assert_eq!(m.guarnicao, "Carne");
    assert!(m.outros.is_empty());
    assert_eq!(m.sobremesa, "");
}

#[test]
fn smart_meal_of_empty_text_is_blank() {
    let m = meal_from_decoded("  <br> ", 5, "A");
    assert!(m.opcoes.is_empty());
    assert_eq!(m.guarnicao, "");
    assert_eq!(m.calories, 5);
}

#[test]
fn smart_meal_with_three_lines() {
    // With three lines the third is the last one: its items are the other items.
    let m = meal_from_decoded("Arroz<br>Frango<br>Banana, Suco", 0, "A");
    assert_eq!(m.outros, vec!["Banana".to_string(), "Suco".to_string()]);
    assert_eq!(m.sobremesa, "");
}

#[test]
fn smart_meal_option_in_lower_case() {
    let m = meal_from_decoded("Arroz<br>Frango<br>opcao: Ovo<br>Doce<br>Fruta", 0, "A");
    assert_eq!(m.guarnicao_pvt, "opcao: Ovo");
    let m = meal_from_decoded("Arroz<br>Frango<br>Opcao: Ovo<br>Doce<br>Fruta", 0, "A");
    assert_eq!(m.guarnicao_pvt, "Ovo");
}

#[test]
fn week_is_read_and_sorted() {
    let dinner_monday = r#"{cdpdia:"Macarr\u00E3o<br>Alm\u00F4ndegas",diasemana:2,dtainismncdp:"10\/03\/2025",tiprfi:"J",vlrclorfi:900}"#;
    let lunch_monday = r#"{cdpdia:"Arroz<br>Bife",diasemana:2,dtainismncdp:"10\u002F03\u002F2025",tiprfi:"A",vlrclorfi:1000}"#;
    let closed_sunday = r#"{cdpdia:"FECHADO",diasemana:1,dtainismncdp:"16\/03\/2025",tiprfi:"A",vlrclorfi:0}"#;
    let r = reply(&[LUNCH_TUESDAY, dinner_monday, closed_sunday, lunch_monday]);
    assert!(dwr_reply_is_readable(&r));
    let menu = parse_dwr_response(&r);
    assert_eq!(menu.restaurant_name, "Restaurante USP");
    assert_eq!(menu.days.len(), 2);
    assert_eq!(menu.days[0].weekday, 1);
    assert_eq!(menu.days[0].date, "10/03");
    assert_eq!(menu.days[0].jantar.as_ref().unwrap().opcoes, vec!["Macarrão".to_string()]);
    assert_eq!(menu.days[0].almoco.as_ref().unwrap().guarnicao, "Bife");
    assert_eq!(menu.days[1].weekday, 2);
    assert_eq!(menu.days[1].date, "11/03");
    assert!(menu.days[1].jantar.is_none());
    assert_eq!(menu.days[1].almoco.as_ref().unwrap().calories, 1200);
}

#[test]
fn sunday_is_day_seven() {
    let sunday = r#"{cdpdia:"Arroz",diasemana:1,dtainismncdp:"16\/03",tiprfi:"A",vlrclorfi:1}"#;
    let menu = parse_dwr_response(&reply(&[sunday]));
    assert_eq!(menu.days.len(), 1);
    assert_eq!(menu.days[0].weekday, 7);
    assert_eq!(menu.days[0].date, "16/03");
}

#[test]
fn missing_day_number_cannot_be_read() {
    // `0 - 1` for a missing day number overflows: such a reply is not read.
    let obj = r#"{cdpdia:"Arroz",dtainismncdp:"1/3",tiprfi:"J",vlrclorfi:x}"#;
    assert!(!dwr_reply_is_readable(&reply(&[obj])));
    assert!(menu_from_replies(13, "", &reply(&[obj])).is_none());
    let zero = r#"{cdpdia:"Arroz",diasemana:0,dtainismncdp:"1/3",tiprfi:"J",vlrclorfi:x}"#;
    assert!(!dwr_reply_is_readable(&reply(&[zero])));
    let closed = r#"{cdpdia:"Fechado",dtainismncdp:"1/3",tiprfi:"J"}"#;
    assert!(dwr_reply_is_readable(&reply(&[closed])));
    let two = r#"{cdpdia:"Arroz",diasemana:2,dtainismncdp:"1/3",tiprfi:"J",vlrclorfi:x}"#;
    let menu = parse_dwr_response(&reply(&[two]));
    assert_eq!(menu.days[0].weekday, 1);
    assert_eq!(menu.days[0].date, "1/3");
    assert_eq!(menu.days[0].jantar.as_ref().unwrap().calories, 0);
}

#[test]
fn reply_without_list_has_no_days() {
    let menu = parse_dwr_response("dwr.engine._remoteHandleCallback('0','0',[]);");
    assert!(menu.days.is_empty());
    assert!(dwr_reply_is_readable("nothing"));
}

#[test]
fn reply_with_markers_out_of_order_cannot_be_read() {
    assert!(!dwr_reply_is_readable("}] then [{"));
    assert!(menu_from_replies(13, "", "}] then [{").is_none());
}

#[test]
fn reply_with_date_cut_inside_a_character_cannot_be_read() {
    let obj = r#"{cdpdia:"Arroz",diasemana:2,dtainismncdp:"abcdé",tiprfi:"A",vlrclorfi:1}"#;
    assert!(!dwr_reply_is_readable(&reply(&[obj])));
    let skipped = r#"{cdpdia:"fechado",diasemana:2,dtainismncdp:"abcdé",tiprfi:"A",vlrclorfi:1}"#;
    assert!(dwr_reply_is_readable(&reply(&[skipped])));
}

#[test]
fn menu_from_replies_sets_the_name() {
    let m = menu_from_replies(99, "", &reply(&[LUNCH_TUESDAY])).unwrap();
    assert_eq!(m.restaurant_name, "Restaurante (ID 99)");
    assert_eq!(m.days.len(), 1);
}

#[test]
fn parsed_week_law_on_example() {
    let objs: Vec<String> = (1..=7)
        .rev()
        .map(|d| format!(r#"{{cdpdia:"Arroz",diasemana:{},dtainismncdp:"0{}/03",tiprfi:"A",vlrclorfi:1}}"#, d, d))
        .collect();
    let refs: Vec<&str> = objs.iter().map(|s| s.as_str()).collect();
    let menu = parse_dwr_response(&reply(&refs));
    let weekdays: Vec<u32> = menu.days.iter().map(|d| d.weekday).collect();
    assert_eq!(weekdays, vec![1, 2, 3, 4, 5, 6, 7]);
    assert!(menu.days.iter().all(|d| d.almoco.is_some() || d.jantar.is_some()));
}

#[test]
fn meal_items_are_clean_on_example() {
    let m = meal_from_decoded(" a , ,b <br> g <br>x<br>y<br> p ,  ,q ", 0, "A");
    assert_eq!(m.opcoes, vec!["a".to_string(), "b".to_string()]);
    assert_eq!(m.guarnicao, "g");
    assert_eq!(m.outros, vec!["p".to_string(), "q".to_string()]);
    for item in m.opcoes.iter().chain(m.outros.iter()) {
        assert!(!item.is_empty());
        assert_eq!(item.trim(), item);
    }
}

#[test]
fn usable_field_value_prefers_quoted() {
    assert_eq!(usable_field_value(Some("a".into()), Some("b".into())), "a");
    assert_eq!(usable_field_value(Some("null".into()), Some("b".into())), "b");
    assert_eq!(usable_field_value(None, Some("null".into())), "");
    assert_eq!(usable_field_value(None, None), "");
}

#[test]
fn latest_meal_of_a_slot_wins() {
    let first = r#"{cdpdia:"Arroz<br>Frango",diasemana:4,dtainismncdp:"12\/03",tiprfi:"A",vlrclorfi:1}"#;
    let dinner = r#"{cdpdia:"Sopa",diasemana:4,dtainismncdp:"12\/03",tiprfi:"J",vlrclorfi:2}"#;
    let second = r#"{cdpdia:"Arroz<br>Peixe",diasemana:4,dtainismncdp:"99\/99",tiprfi:"A",vlrclorfi:3}"#;
    let menu = parse_dwr_response(&reply(&[first, dinner, second]));
    assert_eq!(menu.days.len(), 1);
    assert_eq!(menu.days[0].weekday, 3);
    assert_eq!(menu.days[0].date, "12/03");
    assert_eq!(menu.days[0].almoco.as_ref().unwrap().guarnicao, "Peixe");
    assert_eq!(menu.days[0].jantar.as_ref().unwrap().opcoes, vec!["Sopa".to_string()]);
}

#[test]
fn object_fields_into_days() {
    let mut days: Vec<DayMenu> = Vec::new();
    assert!(add_object_fields(&mut days, "Restaurante Fechado", "2", "x", "A", "1", "Restaurante Fechado"));
    assert!(days.is_empty());
    assert!(add_object_fields(&mut days, "raw", "1", r"15\u002F03\/2025", "J", "+750", "Arroz<br>Ovo"));
    assert_eq!(days.len(), 1);
    assert_eq!(days[0].weekday, 7);
    assert_eq!(days[0].date, "15/03");
    let dinner = days[0].jantar.as_ref().unwrap();
    assert_eq!(dinner.guarnicao, "Ovo");
    assert_eq!(dinner.calories, 750);
    assert_eq!(dinner.meal_type, "J");
    assert!(!add_object_fields(&mut days, "raw", "3", "abcdé", "A", "1", "x"));
    assert_eq!(days.len(), 1);
    assert!(add_object_fields(&mut days, "raw", "8", "ab", "A", "1", "x"));
    assert_eq!(days.len(), 1);
    assert!(days[0].almoco.is_some());
    assert_eq!(days[0].date, "15/03");
    assert!(add_object_fields(&mut days, "raw", "9", "ab", "A", "1", "x"));
    assert_eq!(days.len(), 2);
    assert_eq!(days[1].weekday, 8);
}

fn meal_fields(m: &check_ru::menu::Meal) -> (Vec<String>, Vec<String>, Vec<String>, u32, String) {
    (
        m.opcoes.clone(),
        vec![
            m.guarnicao.clone(),
            m.guarnicao_pvt.clone(),
            m.acompanhamento.clone(),
            m.salada.clone(),
            m.sobremesa.clone(),
        ],
        m.outros.clone(),
        m.calories,
        m.meal_type.clone(),
    )
}

#[test]
fn text_after_the_first_stars_is_ignored() {
    let a = r"Arroz, Feij\u00E3o<br>Frango<br>Op\u00E7\u00E3o: Omelete<br>Salada<br>Pudim<br>P\u00E3o";
    let with_tail = format!("{}**Contém glúten<br>**Obs", a);
    assert_eq!(
        meal_fields(&parse_smart_meal(&with_tail, 900, "A")),
        meal_fields(&parse_smart_meal(a, 900, "A"))
    );
    let plain = "Arroz<br>Frango<br>Doce";
    assert_eq!(
        meal_fields(&meal_from_decoded(&format!("{}**x<br>y", plain), 1, "J")),
        meal_fields(&meal_from_decoded(plain, 1, "J"))
    );
}

#[test]
fn escapes_are_replaced_left_to_right() {
    assert_eq!(decode_unicode_escapes(r"\\u0041"), r"\A");
    assert_eq!(decode_unicode_escapes(r"\u00e9\u0041!"), "éA!");
    assert_eq!(decode_unicode_escapes(r"\uD800x"), "?x");
    assert_eq!(decode_unicode_escapes(r"\u00G1"), r"\u00G1");
}

#[test]
fn closed_day_object_changes_nothing() {
    let closed = r#"{cdpdia:"Fechado",diasemana:2,tiprfi:"A"}"#;
    let dinner_monday = r#"{cdpdia:"Macarr\u00E3o<br>Alm\u00F4ndegas",diasemana:2,dtainismncdp:"10\/03\/2025",tiprfi:"J",vlrclorfi:900}"#;
    let base = reply(&[LUNCH_TUESDAY, dinner_monday]);
    let longer = reply(&[LUNCH_TUESDAY, dinner_monday, closed]);
    let front = reply(&[closed, LUNCH_TUESDAY, dinner_monday]);
    let a = parse_dwr_response(&base);
    for r in [&longer, &front] {
        assert!(dwr_reply_is_readable(r));
        let b = parse_dwr_response(r);
        assert_eq!(a.restaurant_name, b.restaurant_name);
        assert_eq!(a.days.len(), b.days.len());
        for (x, y) in a.days.iter().zip(b.days.iter()) {
            assert_eq!(x.date, y.date);
            assert_eq!(x.weekday, y.weekday);
            assert_eq!(x.almoco.as_ref().map(meal_fields), y.almoco.as_ref().map(meal_fields));
            assert_eq!(x.jantar.as_ref().map(meal_fields), y.jantar.as_ref().map(meal_fields));
        }
    }
}

#[test]
fn field_patterns_capture_as_stated() {
    // A quoted value may not run over a line break: the bare form then reads it.
    assert_eq!(extract_field("cdpdia:\"a\nb\",x:1", "cdpdia"), "\"a\nb\"");
    // The first place with a closing quote before any line break wins.
    assert_eq!(extract_field("tiprfi:\"A\n,tiprfi:\"J\"", "tiprfi"), "J");
    // The bare value runs to the next comma or closing brace, line breaks included.
    assert_eq!(extract_field("vlrclorfi:8\n5}", "vlrclorfi"), "8\n5");
    assert_eq!(extract_field("vlrclorfi:", "vlrclorfi"), "");
    // A name with no closing quote before the line break is not read.
    assert_eq!(restaurant_name(5, "x nomrtn:\"Qu&iacute;mica\n\" y"), "Restaurante das Químicas - Butantã");
}

#[test]
fn service_day_numbers_become_monday_to_sunday() {
    let objs: Vec<String> = (1..=8)
        .map(|d| format!("{{cdpdia:\"Arroz\",diasemana:{},dtainismncdp:\"1/3\",tiprfi:\"A\",vlrclorfi:1}}", d))
        .collect();
    let refs: Vec<&str> = objs.iter().map(|o| o.as_str()).collect();
    let menu = parse_dwr_response(&reply(&refs));
    let weekdays: Vec<u32> = menu.days.iter().map(|d| d.weekday).collect();
    assert_eq!(weekdays, vec![1, 2, 3, 4, 5, 6, 7]);
    let nine = r#"{cdpdia:"Arroz",diasemana:9,dtainismncdp:"1/3",tiprfi:"A",vlrclorfi:1}"#;
    assert_eq!(parse_dwr_response(&reply(&[nine])).days[0].weekday, 8);
}
