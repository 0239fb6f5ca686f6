use pixmux::Tab;

#[test]
fn tab_cycle_goes_round_both_tabs() {
    assert_eq!(Tab::Data.cycle(), Tab::Image);
    assert_eq!(Tab::Image.cycle(), Tab::Data);
    assert_eq!(Tab::Data.next(), Tab::Image);
    assert_eq!(Tab::Image.next(), Tab::Data);
}

#[test]
fn tab_titles_stand_at_their_index() {
    let titles = Tab::titles();
    assert_eq!(titles, vec!["Data", "Image"]);
    assert_eq!(titles[Tab::Data.to_index()], "Data");
    assert_eq!(titles[Tab::Image.to_index()], "Image");
    assert_eq!(Tab::Data.to_index(), 0);
    assert_eq!(Tab::Image.to_index(), 1);
}

#[test]
fn tab_default_is_the_table() {
    assert_eq!(Tab::default(), Tab::Data);
}
