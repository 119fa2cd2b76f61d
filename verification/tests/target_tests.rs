use svetd::target::{sort_dedup, ChannelList};

#[test]
fn channel_list_text_joins_runs() {
    assert_eq!(ChannelList(vec![1, 2, 3, 5]).to_text(), "1..3,5");
    assert_eq!(ChannelList(vec![5, 1, 2, 2]).to_text(), "1..2,2,5");
    assert_eq!(ChannelList(vec![]).to_text(), "");
    assert_eq!(ChannelList(vec![7]).to_text(), "7");
}

#[test]
fn channel_list_reads_text() {
    assert_eq!(ChannelList::from_text("1..3,5").unwrap().0, vec![1, 2, 3, 5]);
    assert_eq!(ChannelList::from_text("8").unwrap().0, vec![8]);
    assert!(ChannelList::from_text("a..b").is_none());
    assert_eq!(ChannelList::from_text("  ").unwrap().0, Vec::<u16>::new());
}

#[test]
fn channel_list_roundtrip() {
    let v = vec![10, 3, 4, 5, 11, 400];
    let text = ChannelList(v.clone()).to_text();
    let back = ChannelList::from_text(&text).unwrap();
    assert_eq!(back.0, sort_dedup(&v));
}

#[test]
fn sort_dedup_orders() {
    assert_eq!(sort_dedup(&vec![3, 1, 3, 2]), vec![1, 2, 3]);
}

#[test]
fn text_of_a_list_without_duplicates_lists_its_maximal_runs() {
    assert_eq!(ChannelList(vec![10, 3, 4, 5, 8, 12, 13]).to_text(), "3..5,8,10,12..13");
    assert_eq!(ChannelList(vec![65535, 65534, 0]).to_text(), "0,65534..65535");
}
