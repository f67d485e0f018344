use ward::text::slot_index;
use ward::{
    classify, parse_raw_cars_list, read_list, write_status, Action, Camera, CameraError, Car,
    Reply, Stage,
};

fn camera() -> Camera {
    Camera::new("10.0.0.5".to_string(), "admin".to_string(), "secret".to_string())
}

fn car(number: &str, begin: &str, end: &str) -> Car {
    Car { number: number.to_string(), begin_date: begin.to_string(), end_date: end.to_string() }
}

fn ok_reply(body: &str) -> Reply {
    Reply::Received { status: 200, body: body.to_string() }
}

#[test]
fn test_find_digit() {
    let raw_string = "Number111=carNumber";
    let digit = slot_index(raw_string);
    assert_eq!(digit, Some(111));
}

#[test]
fn add_car_success() {
    let camera = camera();
    let mut car = car("XXXX1112", "2023-12-12", "2023-12-12");
    let request = camera.add(&mut car);
    assert_eq!(
        request.url,
        "http://10.0.0.5/cgi-bin/lnpr_cgi?action=add&Number=XXXX1112&Begin=2023-12-12&End=2023-12-12"
    );
    if let Ok(res) = write_status(ok_reply("OK\n")) {
        assert_eq!(res, "OK");
    };
}

#[test]
fn edit_car_success() {
    let camera = camera();
    let car = car("XXXX1112", "2023-12-22", "2023-12-22");
    let request = camera.edit(&car);
    assert_eq!(
        request.url,
        "http://10.0.0.5/cgi-bin/lnpr_cgi?action=edit&Number=XXXX1112&Begin=2023-12-22&End=2023-12-22"
    );
    assert_eq!(request.username, "admin");
    assert_eq!(request.password, "secret");
    assert_eq!(request.timeout_ms, 3000);
    if let Ok(res) = write_status(ok_reply("OK\n")) {
        assert_eq!(res, "OK");
    };
}

#[test]
fn remove_car_success() {
    let camera = camera();
    let car = car("XXXX1112", "", "");
    let request = camera.remove(&car);
    assert_eq!(request.url, "http://10.0.0.5/cgi-bin/lnpr_cgi?action=remove&Number=XXXX1112");
    if let Ok(res) = write_status(ok_reply("OK\n")) {
        assert_eq!(res, "OK");
    };
}

#[test]
fn list_request_url() {
    let request = camera().list_numbers();
    assert_eq!(request.url, "http://10.0.0.5/cgi-bin/lnpr_cgi?action=list");
}

#[test]
fn write_status_trims_body() {
    assert_eq!(write_status(ok_reply("  OK \r\n")), Ok("OK".to_string()));
    assert_eq!(write_status(ok_reply("\t\n")), Ok("".to_string()));
    assert_eq!(write_status(ok_reply("ERROR: bad number")), Ok("ERROR: bad number".to_string()));
}

#[test]
fn classify_statuses() {
    assert_eq!(classify(ok_reply(" body\n")), Ok(" body\n".to_string()));
    assert_eq!(
        classify(Reply::Received { status: 401, body: "denied".to_string() }),
        Err(CameraError::Unauthorized)
    );
    assert_eq!(
        classify(Reply::Received { status: 500, body: "broken".to_string() }),
        Err(CameraError::Device("broken".to_string()))
    );
    assert_eq!(
        classify(Reply::Failed { reason: "timed out".to_string() }),
        Err(CameraError::Transport("timed out".to_string()))
    );
}

#[test]
fn unauthorized_from_every_operation() {
    let unauthorized = || Reply::Received { status: 401, body: "".to_string() };
    assert_eq!(write_status(unauthorized()), Err(CameraError::Unauthorized));
    assert_eq!(read_list(unauthorized()), Err(CameraError::Unauthorized));
    let camera = camera();
    let (mut clearing, _) = camera.remove_cars("2023-01-01");
    assert_eq!(
        clearing.step(&camera, unauthorized()),
        Action::Finish(Err(CameraError::Unauthorized))
    );
    assert_ne!(write_status(unauthorized()), Err(CameraError::Device("".to_string())));
}

#[test]
fn decode_concrete_example() {
    let body = "Number111=X111XX777\nBegin111=2023-11-02\nEnd111=2023-11-02\nNotify111=on";
    let list = parse_raw_cars_list(body).unwrap();
    assert_eq!(list, vec![(111, car("X111XX777", "2023-11-02", "2023-11-02"))]);
}

#[test]
fn decode_sparse_out_of_order() {
    let body = "Number1000=C000CC000\nNumber507=B507BB507\nEnd1000=2024-03-03\n\
                Begin3=2024-01-01\nNumber3=A003AA003\nBegin3=2024-01-02\nEnd3=2024-01-03\n\
                Begin507=2024-02-01\nEnd507=2024-02-02\nBegin1000=2024-03-01\nNotify3=off\n";
    assert_eq!(parse_raw_cars_list(body), Err(CameraError::MalformedResponse));
    let body = "Number1000=C000CC000\nNumber507=B507BB507\nEnd1000=2024-03-03\n\
                Number3=A003AA003\nBegin3=2024-01-02\nEnd3=2024-01-03\n\
                Begin507=2024-02-01\nEnd507=2024-02-02\nBegin1000=2024-03-01\nNotify3=off\n";
    let list = parse_raw_cars_list(body).unwrap();
    assert_eq!(
        list,
        vec![
            (3, car("A003AA003", "2024-01-02", "2024-01-03")),
            (507, car("B507BB507", "2024-02-01", "2024-02-02")),
            (1000, car("C000CC000", "2024-03-01", "2024-03-03")),
        ]
    );
}

#[test]
fn decode_begin_without_number() {
    let body = "Begin5=2023-11-02\nNumber5=X111XX777";
    assert_eq!(parse_raw_cars_list(body), Err(CameraError::MalformedResponse));
    let body = "Number4=X111XX777\nEnd5=2023-11-02";
    assert_eq!(parse_raw_cars_list(body), Err(CameraError::MalformedResponse));
}

#[test]
fn decode_bad_slot_index() {
    assert_eq!(parse_raw_cars_list("Number=X111XX777"), Err(CameraError::MalformedResponse));
    assert_eq!(
        parse_raw_cars_list("Number99999999999999999999999=X1"),
        Err(CameraError::MalformedResponse)
    );
}

#[test]
fn decode_skips_odd_lines() {
    let body = "garbage\n\nNumber2=A=B\nNotify2=on\nNumber7=M777MM77\nOther7=x\n";
    let list = parse_raw_cars_list(body).unwrap();
    assert_eq!(list, vec![(7, car("M777MM77", "", ""))]);
    assert_eq!(parse_raw_cars_list(""), Ok(vec![]));
}

#[test]
fn decode_number_overwrites_slot() {
    let body = "Number1=A1\nBegin1=2023-01-01\nNumber1=B2\nEnd1=2023-02-02";
    let list = parse_raw_cars_list(body).unwrap();
    assert_eq!(list, vec![(1, car("B2", "", "2023-02-02"))]);
}

#[test]
fn slot_index_first_digit_run() {
    assert_eq!(slot_index("Begin12x34"), Some(12));
    assert_eq!(slot_index("End0"), Some(0));
    assert_eq!(slot_index("Notify"), None);
}

#[test]
fn read_list_decodes_body() {
    let list = read_list(ok_reply("Number9=K9\nBegin9=2023-05-05\nEnd9=2023-06-06\n")).unwrap();
    assert_eq!(list, vec![(9, car("K9", "2023-05-05", "2023-06-06"))]);
    assert_eq!(read_list(ok_reply("End9=2023-06-06")), Err(CameraError::MalformedResponse));
    assert_eq!(
        read_list(Reply::Received { status: 404, body: "nope".to_string() }),
        Err(CameraError::Device("nope".to_string()))
    );
}

#[test]
fn add_fills_missing_dates() {
    let camera = camera();
    let mut car1 = car("A123AA", "", "");
    let request = camera.add_on(&mut car1, "2023-12-12");
    assert_eq!(car1, car("A123AA", "2023-12-12", "2023-12-12"));
    assert_eq!(
        request.url,
        "http://10.0.0.5/cgi-bin/lnpr_cgi?action=add&Number=A123AA&Begin=2023-12-12&End=2023-12-12"
    );
    let mut car2 = car("A123AA", "2023-01-01", "");
    let request = camera.add_on(&mut car2, "2023-12-12");
    assert_eq!(car2, car("A123AA", "2023-01-01", ""));
    assert_eq!(
        request.url,
        "http://10.0.0.5/cgi-bin/lnpr_cgi?action=add&Number=A123AA&Begin=2023-01-01&End="
    );
    let mut car5 = car("A123AA", "", "2023-01-01");
    camera.add(&mut car5);
    assert_eq!(car5, car("A123AA", "", "2023-01-01"));
    let mut car3 = car("A123AA", "2023-01-01", "2023-02-02");
    camera.add_on(&mut car3, "2023-12-12");
    assert_eq!(car3, car("A123AA", "2023-01-01", "2023-02-02"));
    let mut car4 = car("B1", "", "");
    camera.add(&mut car4);
    assert_eq!(car4.begin_date, car4.end_date);
    assert_eq!(car4.begin_date.len(), 10);
}

#[test]
fn clear_by_date_removes_only_matching() {
    let camera = camera();
    let (mut clearing, request) = camera.remove_cars("2023-01-01");
    assert_eq!(request.url, "http://10.0.0.5/cgi-bin/lnpr_cgi?action=list");
    let list = "Number1=A\nBegin1=2023-01-01\nEnd1=2023-01-01\n\
                Number2=B\nBegin2=2023-01-01\nEnd2=2023-01-02\n";
    match clearing.step(&camera, ok_reply(list)) {
        Action::Send { request, delay_ms } => {
            assert_eq!(request.url, "http://10.0.0.5/cgi-bin/lnpr_cgi?action=remove&Number=A");
            assert_eq!(delay_ms, 0);
        }
        other => panic!("unexpected {:?}", other),
    }
    assert_eq!(clearing.step(&camera, ok_reply("OK")), Action::Finish(Ok(1)));
    assert_eq!(clearing.stage, Stage::Done);
    assert_eq!(clearing.pending, vec![car("A", "2023-01-01", "2023-01-01")]);
}

#[test]
fn clear_by_date_paces_and_stops_on_failure() {
    let camera = camera();
    let (mut clearing, _) = camera.remove_cars("2023-01-01");
    let list = "Number1=A\nEnd1=2023-01-01\nNumber2=B\nEnd2=2023-01-01\nNumber3=C\nEnd3=2023-01-01\n";
    assert!(matches!(clearing.step(&camera, ok_reply(list)), Action::Send { delay_ms: 0, .. }));
    match clearing.step(&camera, ok_reply("OK")) {
        Action::Send { request, delay_ms } => {
            assert_eq!(request.url, "http://10.0.0.5/cgi-bin/lnpr_cgi?action=remove&Number=B");
            assert_eq!(delay_ms, 500);
        }
        other => panic!("unexpected {:?}", other),
    }
    assert_eq!(
        clearing.step(&camera, Reply::Received { status: 500, body: "busy".to_string() }),
        Action::Finish(Err(CameraError::Device("busy".to_string())))
    );
    assert_eq!(clearing.removed, 1);
}

#[test]
fn clear_by_date_nothing_to_remove() {
    let camera = camera();
    let (mut clearing, _) = camera.remove_cars("2030-01-01");
    assert_eq!(
        clearing.step(&camera, ok_reply("Number1=A\nEnd1=2023-01-01\n")),
        Action::Finish(Ok(0))
    );
    let (mut clearing, _) = camera.remove_cars("2030-01-01");
    assert_eq!(
        clearing.step(&camera, ok_reply("Begin1=2023-01-01\n")),
        Action::Finish(Err(CameraError::MalformedResponse))
    );
}

fn encode(entries: &[(usize, Car)]) -> String {
    let mut out = String::new();
    for (slot, car) in entries {
        out.push_str(&format!("Number{}={}\n", slot, car.number));
        out.push_str(&format!("Begin{}={}\n", slot, car.begin_date));
        out.push_str(&format!("End{}={}\n", slot, car.end_date));
        out.push_str(&format!("Notify{}=on\n", slot));
    }
    out
}

#[test]
fn round_trip_any_order() {
    let a = (42, car("A042AA42", "2024-01-01", "2024-01-31"));
    let b = (7, car("B007BB07", "2024-02-01", "2024-02-29"));
    let c = (1000, car("C100CC10", "2024-03-01", "2024-03-31"));
    let expected = vec![b.clone_entry(), a.clone_entry(), c.clone_entry()];
    for order in [vec![&a, &b, &c], vec![&c, &b, &a], vec![&b, &c, &a]] {
        let entries: Vec<(usize, Car)> = order.iter().map(|e| e.clone_entry()).collect();
        let body = encode(&entries);
        assert_eq!(parse_raw_cars_list(&body), Ok(expected.iter().map(|e| e.clone_entry()).collect()));
        let trimmed = body.trim_end().to_string();
        assert_eq!(parse_raw_cars_list(&trimmed), Ok(expected.iter().map(|e| e.clone_entry()).collect()));
    }
}

trait CloneEntry {
    fn clone_entry(&self) -> (usize, Car);
}

impl CloneEntry for (usize, Car) {
    fn clone_entry(&self) -> (usize, Car) {
        (self.0, car(&self.1.number, &self.1.begin_date, &self.1.end_date))
    }
}

#[test]
fn query_values_are_escaped() {
    let camera = camera();
    let odd = car("A&B C", "2024-01-01#x", "100%");
    assert_eq!(
        camera.edit(&odd).url,
        "http://10.0.0.5/cgi-bin/lnpr_cgi?action=edit&Number=A%26B%20C&Begin=2024-01-01%23x&End=100%25"
    );
    assert_eq!(
        camera.remove(&car("Х1=1", "", "")).url,
        "http://10.0.0.5/cgi-bin/lnpr_cgi?action=remove&Number=Х1%3D1"
    );
    assert_eq!(ward::text::escape_value("a-b_c.d~e"), "a-b_c.d~e");
}

#[test]
fn finished_clearing_stays_finished() {
    let camera = camera();
    let (mut clearing, _) = camera.remove_cars("2023-01-01");
    let list = "Number1=A\nEnd1=2023-01-01\n";
    assert!(matches!(clearing.step(&camera, ok_reply(list)), Action::Send { delay_ms: 0, .. }));
    assert_eq!(clearing.step(&camera, ok_reply("OK")), Action::Finish(Ok(1)));
    assert_eq!(clearing.step(&camera, ok_reply("OK")), Action::Finish(Ok(1)));
    assert_eq!(clearing.stage, Stage::Done);
    assert_eq!(clearing.removed, 1);
}

#[test]
fn clear_by_today_when_date_empty() {
    let (clearing, _) = camera().remove_cars("");
    assert_eq!(clearing.end_date.len(), 10);
}

#[test]
fn same_lines_in_other_order_decode_alike() {
    let lines = [
        "Number507=B507BB507",
        "Number1000=C000CC000",
        "End507=2024-02-02",
        "Number3=A003AA003",
        "Begin1000=2024-03-01",
        "End3=2024-01-03",
        "Begin507=2024-02-01",
    ];
    let first = parse_raw_cars_list(&lines.join("\n"));
    let reordered = [lines[1], lines[4], lines[3], lines[0], lines[5], lines[6], lines[2]];
    let second = parse_raw_cars_list(&reordered.join("\n"));
    assert_eq!(first, second);
    assert_eq!(
        first,
        Ok(vec![
            (3, car("A003AA003", "", "2024-01-03")),
            (507, car("B507BB507", "2024-02-01", "2024-02-02")),
            (1000, car("C000CC000", "2024-03-01", "")),
        ])
    );
}

#[test]
fn clear_by_date_stops_on_soft_failure() {
    let camera = camera();
    let (mut clearing, _) = camera.remove_cars("2023-01-01");
    let list = "Number1=A\nEnd1=2023-01-01\nNumber2=B\nEnd2=2023-01-01\n";
    assert!(matches!(clearing.step(&camera, ok_reply(list)), Action::Send { delay_ms: 0, .. }));
    assert!(matches!(clearing.step(&camera, ok_reply("OK\r\n")), Action::Send { delay_ms: 500, .. }));
    assert_eq!(
        clearing.step(&camera, ok_reply(" ERROR \n")),
        Action::Finish(Err(CameraError::Device("ERROR".to_string())))
    );
    assert_eq!(clearing.removed, 1);
}
