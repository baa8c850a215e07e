use status_feed::forms::{
    non_empty, CreateStatusForm, NewStatus, UpdateProfileForm, UserPageParams, PAGE_SIZE,
};
use status_feed::generator::{IdError, IdGenerator};
use status_feed::identifier::{node, unix_millis};
use status_feed::partition::{OrderedItem, Partition};

fn statuses(count: u64) -> Partition<u64> {
    let mut partition = Partition::new();
    for n in 1..=count {
        assert_eq!(partition.insert(OrderedItem { id: n * 100, payload: n }), Ok(()));
    }
    partition
}

#[test]
fn an_empty_field_is_nothing() {
    assert_eq!(non_empty(String::new()), None);
    assert_eq!(non_empty(String::from("spoilers")), Some(String::from("spoilers")));
    assert_eq!(non_empty(String::from(" ")), Some(String::from(" ")));
}

#[test]
fn a_form_becomes_a_status() {
    let form = CreateStatusForm {
        content: String::from("hello"),
        content_warning: String::from("greeting"),
    };
    let status = form.into_status(77, 1_500_000_000_000, 12);
    assert_eq!(
        status,
        NewStatus {
            id: 77,
            created_at: 1_500_000_000_000,
            text: String::from("hello"),
            content_warning: Some(String::from("greeting")),
            account_id: 12,
        }
    );
}

#[test]
fn a_form_without_content_warning_stores_none() {
    let form = CreateStatusForm { content: String::from("hello"), content_warning: String::new() };
    let status = form.into_status(78, -5, 12);
    assert_eq!(status.content_warning, None);
    assert_eq!(status.text, "hello");
    assert_eq!(status.id, 78);
    assert_eq!(status.created_at, -5);
}

#[test]
fn stamping_takes_a_fresh_identifier_and_the_time() {
    let mut generator = IdGenerator::new(5).unwrap();
    let before = chrono::Utc::now().timestamp_millis();
    let first = CreateStatusForm { content: String::from("one"), content_warning: String::new() }
        .stamp(&mut generator, 12)
        .unwrap();
    let second = CreateStatusForm {
        content: String::from("two"),
        content_warning: String::from("cw"),
    }
    .stamp(&mut generator, 13)
    .unwrap();
    let after = chrono::Utc::now().timestamp_millis();

    assert!(first.id < second.id);
    assert_eq!(node(first.id), 5);
    assert_eq!(node(second.id), 5);
    assert!(before <= unix_millis(first.id) && unix_millis(second.id) <= after);
    assert!(before <= first.created_at && first.created_at <= second.created_at);
    assert!(second.created_at <= after);
    assert_eq!((first.text.as_str(), first.content_warning, first.account_id), ("one", None, 12));
    assert_eq!(second.text, "two");
    assert_eq!(second.content_warning, Some(String::from("cw")));
    assert_eq!(second.account_id, 13);
}

#[test]
fn stamping_fails_where_the_generator_does() {
    let ahead = chrono::Utc::now().timestamp_millis() + 3_600_000;
    let mut generator = IdGenerator::new(5).unwrap().with_retries(0);
    let issued = generator.next_at(ahead).unwrap();
    let form = CreateStatusForm { content: String::from("one"), content_warning: String::new() };
    assert_eq!(form.stamp(&mut generator, 12), Err(IdError::ClockRegression));
    assert_eq!(generator.next_at(ahead), Ok(issued + 1));
}

#[test]
fn an_empty_summary_clears_the_profile() {
    assert_eq!(UpdateProfileForm { summary: String::new() }.into_summary(), None);
    assert_eq!(
        UpdateProfileForm { summary: String::from("about me") }.into_summary(),
        Some(String::from("about me"))
    );
}

#[test]
fn the_first_user_page_has_no_cursor() {
    assert_eq!(UserPageParams::first(), UserPageParams { max_id: None });
    assert_eq!(UserPageParams::before(9), UserPageParams { max_id: Some(9) });
    assert_eq!(PAGE_SIZE, 10);
}

#[test]
fn user_pages_hold_ten_statuses() {
    let partition = statuses(25);
    let first = UserPageParams::first().page(&partition);
    assert_eq!(first.items.len(), 10);
    assert_eq!(first.items[0].id, 2_500);
    assert_eq!(first.items[9].id, 1_600);
    assert_eq!(first.previous_page_id, Some(1_600));

    let second = UserPageParams::before(1_600).page(&partition);
    assert_eq!(second.items.len(), 10);
    assert_eq!(second.items[0].id, 1_500);
    assert_eq!(second.previous_page_id, Some(600));

    let third = UserPageParams { max_id: second.previous_page_id }.page(&partition);
    assert_eq!(third.items.len(), 5);
    assert_eq!(third.items[4].id, 100);
    assert_eq!(third.previous_page_id, None);
}

#[test]
fn a_user_with_exactly_ten_statuses_has_one_page() {
    let partition = statuses(10);
    let page = UserPageParams::first().page(&partition);
    assert_eq!(page.items.len(), 10);
    assert_eq!(page.previous_page_id, None);
}

#[test]
fn a_user_without_statuses_has_an_empty_page() {
    let partition = statuses(0);
    let page = UserPageParams::first().page(&partition);
    assert!(page.items.is_empty());
    assert_eq!(page.previous_page_id, None);
}
