use speed_daemon::db::{Camera, Db, Plate};
use speed_daemon::ticketing::{issue_possible_ticket, send_out_waiting_tickets, Delivery};

fn report(db: &mut Db, camera_id: u64, plate: &str, timestamp: u32) -> Vec<Delivery> {
    issue_possible_ticket(db, Plate { plate: plate.to_string(), timestamp }, camera_id)
        .expect("the camera is registered")
}

fn road_with_cameras(limit: u16, miles: &[u16]) -> Db {
    let mut db = Db::new();
    for (k, mile) in miles.iter().enumerate() {
        db.add_camera(k as u64 + 1, Camera { road: 123, mile: *mile, limit });
    }
    db
}

#[test]
fn report_without_camera_does_nothing() {
    let mut db = Db::new();
    let r = issue_possible_ticket(&mut db, Plate { plate: "UN1X".to_string(), timestamp: 0 }, 1);
    assert!(r.is_none());
    db.add_camera(1, Camera { road: 123, mile: 8, limit: 60 });
    assert!(db.get_plates_by_road(&"UN1X".to_string(), 123).is_empty());
}

#[test]
fn first_sighting_makes_no_ticket_and_is_recorded() {
    let mut db = road_with_cameras(60, &[8]);
    assert!(report(&mut db, 1, "UN1X", 0).is_empty());
    assert_eq!(db.get_plates_by_road(&"UN1X".to_string(), 123), vec![(8, 0)]);
    assert!(db.get_open_tickets().is_empty());
}

#[test]
fn speed_is_in_hundredths_of_miles_per_hour() {
    let mut db = road_with_cameras(60, &[8, 9]);
    db.add_dispatcher(50, vec![123]);
    assert!(report(&mut db, 1, "UN1X", 0).is_empty());
    let sent = report(&mut db, 2, "UN1X", 45);
    assert_eq!(sent.len(), 1);
    assert_eq!(sent[0].dispatcher, 50);
    let t = &sent[0].ticket;
    assert_eq!(t.plate, "UN1X");
    assert_eq!((t.road, t.mile1, t.timestamp1, t.mile2, t.timestamp2), (123, 8, 0, 9, 45));
    assert_eq!(t.speed, 8000);
    assert!(db.get_open_tickets().is_empty());
    assert!(db.is_plate_ticketed_for_day(0, &"UN1X".to_string()));
    assert!(!db.is_plate_ticketed_for_day(1, &"UN1X".to_string()));
}

#[test]
fn speed_is_rounded_down() {
    // 10 miles in 353 seconds: 3600000 / 353 = 10198.3
    let mut db = road_with_cameras(60, &[10, 20]);
    db.add_dispatcher(50, vec![123]);
    report(&mut db, 1, "AAA", 1000);
    let sent = report(&mut db, 2, "AAA", 1353);
    assert_eq!(sent.len(), 1);
    assert_eq!(sent[0].ticket.speed, 10198);
}

#[test]
fn speed_at_the_limit_makes_no_ticket() {
    // 1 mile in 60 seconds is exactly 60 miles per hour.
    let mut db = road_with_cameras(60, &[8, 9]);
    db.add_dispatcher(50, vec![123]);
    report(&mut db, 1, "AAA", 0);
    assert!(report(&mut db, 2, "AAA", 60).is_empty());
    assert!(!db.is_plate_ticketed_for_day(0, &"AAA".to_string()));
    // One second faster: 360000 / 59 = 6101 hundredths, over 6000.
    report(&mut db, 1, "BBB", 0);
    let sent = report(&mut db, 2, "BBB", 59);
    assert_eq!(sent.len(), 1);
    assert_eq!(sent[0].ticket.speed, 6101);
}

#[test]
fn sightings_are_ordered_by_time_not_by_arrival() {
    let mut db = road_with_cameras(60, &[8, 9]);
    db.add_dispatcher(50, vec![123]);
    report(&mut db, 2, "UN1X", 45);
    let sent = report(&mut db, 1, "UN1X", 0);
    assert_eq!(sent.len(), 1);
    let t = &sent[0].ticket;
    assert_eq!((t.mile1, t.timestamp1, t.mile2, t.timestamp2, t.speed), (8, 0, 9, 45, 8000));
}

#[test]
fn distance_is_counted_in_both_directions() {
    let mut db = road_with_cameras(60, &[9, 8]);
    db.add_dispatcher(50, vec![123]);
    report(&mut db, 1, "UN1X", 0);
    let sent = report(&mut db, 2, "UN1X", 45);
    assert_eq!(sent.len(), 1);
    let t = &sent[0].ticket;
    assert_eq!((t.mile1, t.timestamp1, t.mile2, t.timestamp2, t.speed), (9, 0, 8, 45, 8000));
}

#[test]
fn sightings_at_the_same_time_are_skipped() {
    let mut db = road_with_cameras(60, &[8, 900]);
    db.add_dispatcher(50, vec![123]);
    report(&mut db, 1, "UN1X", 100);
    assert!(report(&mut db, 2, "UN1X", 100).is_empty());
    assert!(db.get_open_tickets().is_empty());
    assert_eq!(db.get_plates_by_road(&"UN1X".to_string(), 123), vec![(8, 100), (900, 100)]);
}

#[test]
fn empty_plate_is_recorded_and_never_ticketed() {
    let mut db = road_with_cameras(60, &[8, 900]);
    db.add_dispatcher(50, vec![123]);
    assert!(report(&mut db, 1, "", 0).is_empty());
    assert!(report(&mut db, 2, "", 45).is_empty());
    assert!(db.get_open_tickets().is_empty());
    assert_eq!(db.get_plates_by_road(&String::new(), 123), vec![(8, 0), (900, 45)]);
    assert!(!db.is_plate_ticketed_for_day(0, &String::new()));
}

#[test]
fn other_plates_and_other_roads_do_not_pair() {
    let mut db = Db::new();
    db.add_camera(1, Camera { road: 1, mile: 8, limit: 60 });
    db.add_camera(2, Camera { road: 2, mile: 900, limit: 60 });
    db.add_camera(3, Camera { road: 1, mile: 900, limit: 60 });
    report(&mut db, 1, "AAA", 0);
    assert!(report(&mut db, 2, "AAA", 45).is_empty());
    assert!(report(&mut db, 3, "BBB", 45).is_empty());
    assert!(db.get_open_tickets().is_empty());
}

#[test]
fn speed_on_the_ticket_is_cut_off_at_65535() {
    let mut db = road_with_cameras(60, &[0, 65535]);
    db.add_dispatcher(50, vec![123]);
    report(&mut db, 1, "AAA", 0);
    let sent = report(&mut db, 2, "AAA", 1);
    assert_eq!(sent.len(), 1);
    assert_eq!(sent[0].ticket.speed, 65535);
    // 182 miles in an hour is 18200 hundredths; one more hundredth of a mile
    // per hour than fits would be 65536: 65536 miles in 360000 seconds.
    report(&mut db, 1, "BBB", 0);
    let sent = report(&mut db, 2, "BBB", 360000);
    assert_eq!(sent.len(), 1);
    assert_eq!(sent[0].ticket.speed, 65535);
}

#[test]
fn limit_is_compared_without_overflow() {
    // A limit of 700 miles per hour is 70000 hundredths, more than a ticket
    // can carry. 1000 miles in an hour is below it no more.
    let mut db = road_with_cameras(700, &[0, 1000]);
    db.add_dispatcher(50, vec![123]);
    report(&mut db, 1, "AAA", 0);
    let sent = report(&mut db, 2, "AAA", 3600);
    assert_eq!(sent.len(), 1);
    assert_eq!(sent[0].ticket.speed, 65535);
    // 690 miles in an hour is within the limit.
    let mut db = road_with_cameras(700, &[0, 690]);
    db.add_dispatcher(50, vec![123]);
    report(&mut db, 1, "AAA", 0);
    assert!(report(&mut db, 2, "AAA", 3600).is_empty());
}

#[test]
fn ticket_without_dispatcher_is_parked() {
    let mut db = road_with_cameras(60, &[8, 9]);
    db.add_dispatcher(50, vec![124]);
    report(&mut db, 1, "UN1X", 0);
    assert!(report(&mut db, 2, "UN1X", 45).is_empty());
    let parked = db.get_open_tickets();
    assert_eq!(parked.len(), 1);
    assert_eq!(parked[0].speed, 8000);
    assert!(db.is_plate_ticketed_for_day(0, &"UN1X".to_string()));
    db.add_dispatcher(51, vec![7, 123]);
    let sent = send_out_waiting_tickets(&mut db, 51, &vec![7, 123]);
    assert_eq!(sent.len(), 1);
    assert_eq!(sent[0].dispatcher, 51);
    assert_eq!(sent[0].ticket.plate, "UN1X");
    assert_eq!(sent[0].ticket.speed, 8000);
    assert!(db.get_open_tickets().is_empty());
    assert!(send_out_waiting_tickets(&mut db, 51, &vec![7, 123]).is_empty());
}

#[test]
fn parked_tickets_leave_road_by_road_in_the_order_parked() {
    let mut db = Db::new();
    db.add_camera(1, Camera { road: 1, mile: 0, limit: 60 });
    db.add_camera(2, Camera { road: 1, mile: 100, limit: 60 });
    db.add_camera(3, Camera { road: 2, mile: 0, limit: 60 });
    db.add_camera(4, Camera { road: 2, mile: 100, limit: 60 });
    report(&mut db, 1, "A", 0);
    report(&mut db, 3, "B", 0);
    report(&mut db, 1, "C", 0);
    report(&mut db, 2, "A", 60);
    report(&mut db, 4, "B", 60);
    report(&mut db, 2, "C", 60);
    assert_eq!(db.get_open_tickets().len(), 3);
    let roads = vec![2, 1, 2];
    db.add_dispatcher(9, roads.clone());
    let sent = send_out_waiting_tickets(&mut db, 9, &roads);
    let order: Vec<&str> = sent.iter().map(|d| d.ticket.plate.as_str()).collect();
    assert_eq!(order, vec!["B", "A", "C"]);
    assert!(sent.iter().all(|d| d.dispatcher == 9));
    assert!(db.get_open_tickets().is_empty());
}

#[test]
fn no_roads_drain_nothing() {
    let mut db = road_with_cameras(60, &[8, 9]);
    report(&mut db, 1, "UN1X", 0);
    report(&mut db, 2, "UN1X", 45);
    db.add_dispatcher(50, vec![]);
    assert!(send_out_waiting_tickets(&mut db, 50, &vec![]).is_empty());
    assert_eq!(db.get_open_tickets().len(), 1);
    assert_eq!(db.get_dispatcher_for_road(123), None);
}

#[test]
fn one_ticket_per_plate_and_day() {
    let mut db = road_with_cameras(60, &[8, 9, 10]);
    db.add_dispatcher(50, vec![123]);
    report(&mut db, 1, "UN1X", 0);
    assert_eq!(report(&mut db, 2, "UN1X", 45).len(), 1);
    // Both pairs with the third sighting are over the limit, on day 0.
    assert!(report(&mut db, 3, "UN1X", 90).is_empty());
    // Another plate still gets its ticket.
    report(&mut db, 1, "OTHER", 0);
    assert_eq!(report(&mut db, 2, "OTHER", 45).len(), 1);
    // And so does the same plate on the next day.
    report(&mut db, 1, "UN1X", 86400);
    let sent = report(&mut db, 2, "UN1X", 86445);
    assert_eq!(sent.len(), 1);
    assert_eq!((sent[0].ticket.timestamp1, sent[0].ticket.timestamp2), (86400, 86445));
}

#[test]
fn ticket_over_several_days_uses_all_of_them() {
    // 60000 miles in two days: 60000 * 360000 / 172800 = 125000 hundredths.
    let mut db = road_with_cameras(60, &[0, 60000, 60010]);
    db.add_dispatcher(50, vec![123]);
    report(&mut db, 1, "AAA", 100);
    let sent = report(&mut db, 2, "AAA", 172900);
    assert_eq!(sent.len(), 1);
    assert_eq!(sent[0].ticket.speed, 65535);
    for day in 0..=2 {
        assert!(db.is_plate_ticketed_for_day(day, &"AAA".to_string()));
    }
    assert!(!db.is_plate_ticketed_for_day(3, &"AAA".to_string()));
    // A pair within day 1 would be over the limit, but the day is used up.
    report(&mut db, 2, "AAA", 90000);
    assert!(report(&mut db, 3, "AAA", 90060).is_empty());
}

#[test]
fn pair_that_touches_a_used_day_marks_nothing() {
    let mut db = road_with_cameras(60, &[0, 10, 60000]);
    db.add_dispatcher(50, vec![123]);
    // A ticket on day 1.
    report(&mut db, 1, "AAA", 86400);
    assert_eq!(report(&mut db, 2, "AAA", 86460).len(), 1);
    // A pair from day 0 to day 2 is over the limit but crosses day 1.
    report(&mut db, 1, "AAA", 10);
    let sent = report(&mut db, 3, "AAA", 2 * 86400 + 10);
    assert!(sent.is_empty());
    assert!(!db.is_plate_ticketed_for_day(0, &"AAA".to_string()));
    assert!(!db.is_plate_ticketed_for_day(2, &"AAA".to_string()));
}

#[test]
fn one_report_can_make_tickets_for_different_days() {
    let mut db = road_with_cameras(60, &[0, 30000, 60000]);
    db.add_dispatcher(50, vec![123]);
    // Day 0 and day 2 sightings, far from the camera that reports on day 1.
    report(&mut db, 1, "AAA", 86399);
    report(&mut db, 3, "AAA", 2 * 86400);
    assert_eq!(db.get_open_tickets().len(), 0);
    // The two earlier sightings made a ticket for days 0 to 2 already.
    assert!(db.is_plate_ticketed_for_day(1, &"AAA".to_string()));
    assert!(report(&mut db, 2, "AAA", 86400 + 100).is_empty());

    let mut db = road_with_cameras(60, &[0, 30000]);
    db.add_dispatcher(50, vec![123]);
    report(&mut db, 1, "BBB", 86399);
    report(&mut db, 1, "BBB", 2 * 86400 + 1);
    // Same mile twice: no ticket between them. The report in between pairs
    // with the first over days 0 to 1; the pair with the second spans days 1
    // to 2 and is refused because day 1 is then used.
    let sent = report(&mut db, 2, "BBB", 86400 + 100);
    assert_eq!(sent.len(), 1);
    assert_eq!((sent[0].ticket.timestamp1, sent[0].ticket.timestamp2), (86399, 86500));
    assert!(!db.is_plate_ticketed_for_day(2, &"BBB".to_string()));
}
