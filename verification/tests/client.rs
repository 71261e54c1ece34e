use stockframe::client::{
    advance, auth_headers, bars_uri, credentials, decode_page, page_of_document, request_url,
    ConfigurationError, Credentials, Fetch, FetchError, Page, PAUSE_SECONDS,
};
use stockframe::frame::StockFrame;
use stockframe::json::{find_member, Json, Number};

fn number(integer: Option<i64>, value: f64) -> Json {
    Json::Number(Number { integer, bits: Some(value.to_bits()) })
}

#[test]
fn page_with_a_cursor_is_decoded() {
    let body = br#"{"bars":[{"c":1.5},{"c":2}],"next_page_token":"abc","symbol":"AAPL"}"#;
    let page = decode_page(body).unwrap();
    assert_eq!(
        page,
        Page {
            bars: vec![
                Json::Object(vec![(String::from("c"), number(None, 1.5))]),
                Json::Object(vec![(String::from("c"), number(Some(2), 2.0))]),
            ],
            next_page_token: Some(String::from("abc")),
        }
    );
}

#[test]
fn null_cursor_marks_the_last_page() {
    let page = decode_page(br#"{"bars":[],"next_page_token":null}"#).unwrap();
    assert_eq!(page, Page { bars: vec![], next_page_token: None });
}

#[test]
fn cursor_that_is_no_text_marks_the_last_page() {
    let page = decode_page(br#"{"bars":[],"next_page_token":17}"#).unwrap();
    assert_eq!(page.next_page_token, None);
}

#[test]
fn response_without_a_cursor_member_is_invalid() {
    assert_eq!(decode_page(br#"{"bars":[]}"#), Err(FetchError::InvalidResponse));
}

#[test]
fn response_without_bars_is_invalid() {
    assert_eq!(decode_page(br#"{"next_page_token":null}"#), Err(FetchError::InvalidResponse));
}

#[test]
fn bars_that_are_no_array_are_invalid() {
    assert_eq!(
        decode_page(br#"{"bars":{"c":1},"next_page_token":null}"#),
        Err(FetchError::InvalidResponse)
    );
    assert_eq!(
        decode_page(br#"{"bars":null,"next_page_token":null}"#),
        Err(FetchError::InvalidResponse)
    );
}

#[test]
fn response_that_is_no_object_is_invalid() {
    assert_eq!(decode_page(b"[1,2,3]"), Err(FetchError::InvalidResponse));
    assert_eq!(decode_page(b"\"bars\""), Err(FetchError::InvalidResponse));
}

#[test]
fn response_that_is_no_json_is_invalid() {
    assert_eq!(decode_page(b"<html>rate limit</html>"), Err(FetchError::InvalidResponse));
    assert_eq!(decode_page(b""), Err(FetchError::InvalidResponse));
    assert_eq!(decode_page(b"{\"bars\":[],\"next_page_token\":null} trailing"), Err(FetchError::InvalidResponse));
}

#[test]
fn response_that_is_no_utf8_is_invalid() {
    assert_eq!(decode_page(&[0x7b, 0x22, 0xff, 0xfe, 0x22, 0x7d]), Err(FetchError::InvalidResponse));
}

#[test]
fn document_values_are_read_variant_by_variant() {
    let body = br#"{"bars":[null,true,-3,2.5,"x",[1],{"k":"v"},18446744073709551615],"next_page_token":null}"#;
    let page = decode_page(body).unwrap();
    assert_eq!(
        page.bars,
        vec![
            Json::Null,
            Json::Bool(true),
            number(Some(-3), -3.0),
            number(None, 2.5),
            Json::Text(String::from("x")),
            Json::Array(vec![number(Some(1), 1.0)]),
            Json::Object(vec![(String::from("k"), Json::Text(String::from("v")))]),
            number(None, 18446744073709551615.0),
        ]
    );
}

#[test]
fn members_of_an_object_come_in_key_order() {
    let body = br#"{"next_page_token":null,"bars":[{"vw":1,"c":2,"t":"x","h":3}]}"#;
    let page = decode_page(body).unwrap();
    match &page.bars[0] {
        Json::Object(members) => {
            let keys: Vec<&str> = members.iter().map(|member| member.0.as_str()).collect();
            assert_eq!(keys, vec!["c", "h", "t", "vw"]);
        }
        other => panic!("not an object: {:?}", other),
    }
}

#[test]
fn member_is_found_by_key() {
    let members = vec![
        (String::from("bars"), Json::Null),
        (String::from("next_page_token"), Json::Bool(true)),
    ];
    assert_eq!(find_member(&members, "bars"), Some(0));
    assert_eq!(find_member(&members, "next_page_token"), Some(1));
    assert_eq!(find_member(&members, "symbol"), None);
    assert_eq!(find_member(&vec![], "bars"), None);
}

#[test]
fn page_of_no_document_is_invalid() {
    assert_eq!(page_of_document(None), Err(FetchError::InvalidResponse));
    assert_eq!(page_of_document(Some(Json::Null)), Err(FetchError::InvalidResponse));
}

#[test]
fn first_request_is_the_uri() {
    let uri = String::from("https://host/bars?timeframe=1Min");
    assert_eq!(request_url(&uri, &None), "https://host/bars?timeframe=1Min");
}

#[test]
fn next_request_carries_the_cursor() {
    let uri = String::from("https://host/bars?timeframe=1Min");
    assert_eq!(
        request_url(&uri, &Some(String::from("QUFQTHw="))),
        "https://host/bars?timeframe=1Min&page_token=QUFQTHw="
    );
}

#[test]
fn last_page_completes_the_fetch() {
    let uri = String::from("https://host/bars?x");
    let gathered = vec![Json::Bool(false)];
    let step = StockFrame::grab_entire_json(&uri, gathered, br#"{"bars":[1],"next_page_token":null}"#);
    assert_eq!(
        step,
        Ok(Fetch::Complete { bars: vec![Json::Bool(false), number(Some(1), 1.0)] })
    );
}

#[test]
fn page_with_a_cursor_continues_the_fetch() {
    let uri = String::from("https://host/bars?x");
    let step = StockFrame::grab_entire_json(&uri, vec![], br#"{"bars":[1,2],"next_page_token":"t1"}"#);
    assert_eq!(
        step,
        Ok(Fetch::Continue {
            bars: vec![number(Some(1), 1.0), number(Some(2), 2.0)],
            url: String::from("https://host/bars?x&page_token=t1"),
        })
    );
}

#[test]
fn invalid_page_fails_the_fetch() {
    let uri = String::from("https://host/bars?x");
    let step = StockFrame::grab_entire_json(&uri, vec![Json::Null], br#"{"message":"forbidden"}"#);
    assert_eq!(step, Err(FetchError::InvalidResponse));
}

#[test]
fn advance_keeps_what_was_gathered_in_order() {
    let uri = String::from("u");
    let doc = Json::Object(vec![
        (String::from("bars"), Json::Array(vec![Json::Bool(true)])),
        (String::from("next_page_token"), Json::Text(String::from("n"))),
    ]);
    let step = advance(&uri, vec![Json::Null, Json::Bool(false)], Some(doc));
    assert_eq!(
        step,
        Ok(Fetch::Continue {
            bars: vec![Json::Null, Json::Bool(false), Json::Bool(true)],
            url: String::from("u&page_token=n"),
        })
    );
}

#[test]
fn pagination_runs_until_a_page_names_no_cursor() {
    let uri = String::from("https://host/bars?x");
    let pages = 40;
    let mut gathered: Vec<Json> = vec![];
    let mut url = request_url(&uri, &None);
    let mut asked: Vec<String> = vec![];
    let mut page = 0;
    let bars = loop {
        asked.push(url);
        let body = if page + 1 < pages {
            format!("{{\"bars\":[{}],\"next_page_token\":\"page-{}\"}}", page, page + 1)
        } else {
            format!("{{\"bars\":[{}],\"next_page_token\":null}}", page)
        };
        match StockFrame::grab_entire_json(&uri, gathered, body.as_bytes()).unwrap() {
            Fetch::Continue { bars, url: next } => {
                gathered = bars;
                url = next;
                page += 1;
            }
            Fetch::Complete { bars } => break bars,
        }
    };
    assert_eq!(bars.len(), pages);
    for (i, bar) in bars.iter().enumerate() {
        assert_eq!(bar, &number(Some(i as i64), i as f64));
    }
    assert_eq!(asked.len(), pages);
    assert_eq!(asked[0], "https://host/bars?x");
    assert_eq!(asked[39], "https://host/bars?x&page_token=page-39");
}

#[test]
fn bars_uri_names_ticker_window_and_timeframe() {
    let uri = bars_uri(&String::from("AAPL"), 1_704_205_800_000, 1_706_797_800_999);
    assert_eq!(
        uri,
        Some(String::from(
            "https://data.alpaca.markets/v2/stocks/AAPL/bars?start=2024-01-02T14:30:00Z&end=2024-02-01T14:30:00Z&timeframe=1Min"
        ))
    );
}

#[test]
fn bars_uri_before_the_epoch() {
    let uri = bars_uri(&String::from("T"), -1, 0).unwrap();
    assert_eq!(
        uri,
        "https://data.alpaca.markets/v2/stocks/T/bars?start=1969-12-31T23:59:59Z&end=1970-01-01T00:00:00Z&timeframe=1Min"
    );
}

#[test]
fn bars_uri_of_an_instant_out_of_range_is_none() {
    assert_eq!(bars_uri(&String::from("AAPL"), i64::MIN, 0), None);
    assert_eq!(bars_uri(&String::from("AAPL"), 0, i64::MAX), None);
}

#[test]
fn credentials_need_key_and_secret() {
    assert_eq!(
        credentials(Some(String::from("k")), Some(String::from("s"))),
        Ok(Credentials { key: String::from("k"), secret: String::from("s") })
    );
    assert_eq!(
        credentials(None, Some(String::from("s"))),
        Err(ConfigurationError { key_missing: true, secret_missing: false })
    );
    assert_eq!(
        credentials(Some(String::from("k")), None),
        Err(ConfigurationError { key_missing: false, secret_missing: true })
    );
    assert_eq!(
        credentials(None, None),
        Err(ConfigurationError { key_missing: true, secret_missing: true })
    );
}

#[test]
fn headers_carry_the_credentials() {
    let found = Credentials { key: String::from("PK123"), secret: String::from("shh") };
    assert_eq!(
        auth_headers(&found),
        vec![String::from("APCA-API-KEY-ID: PK123"), String::from("APCA-API-SECRET-KEY: shh")]
    );
}

#[test]
fn pause_between_tickers_is_four_seconds() {
    assert_eq!(PAUSE_SECONDS, 4);
}
