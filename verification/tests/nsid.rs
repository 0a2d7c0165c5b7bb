use net_device_mapping::nsid_monitor::{
    extract_nsid_from_attrs, notification_event, reply_nsid, NetnsIdEvent, NsidAttribute,
    NsidMessageKind,
};

#[test]
fn new_id_message_is_an_addition() {
    let attrs = vec![NsidAttribute::Id(7)];
    assert_eq!(notification_event(NsidMessageKind::New, &attrs), Some(NetnsIdEvent::Added(7)));
}

#[test]
fn del_id_message_is_a_removal() {
    let attrs = vec![NsidAttribute::Other, NsidAttribute::Id(0)];
    assert_eq!(notification_event(NsidMessageKind::Del, &attrs), Some(NetnsIdEvent::Removed(0)));
}

#[test]
fn other_messages_are_ignored() {
    let attrs = vec![NsidAttribute::Id(7)];
    assert_eq!(notification_event(NsidMessageKind::Get, &attrs), None);
    assert_eq!(notification_event(NsidMessageKind::Other, &attrs), None);
    assert_eq!(notification_event(NsidMessageKind::New, &vec![]), None);
    assert_eq!(notification_event(NsidMessageKind::New, &vec![NsidAttribute::CurrentNsid(3)]), None);
}

#[test]
fn unassigned_ids_are_filtered_out() {
    assert_eq!(notification_event(NsidMessageKind::New, &vec![NsidAttribute::Id(-1)]), None);
    assert_eq!(notification_event(NsidMessageKind::Del, &vec![NsidAttribute::Id(i32::MIN)]), None);
    assert_eq!(extract_nsid_from_attrs(&vec![NsidAttribute::Id(-1), NsidAttribute::Id(4)]), None);
}

#[test]
fn the_first_id_attribute_counts() {
    let attrs = vec![
        NsidAttribute::Fd(3),
        NsidAttribute::Pid(9),
        NsidAttribute::TargetNsid(1),
        NsidAttribute::Id(5),
        NsidAttribute::Id(6),
    ];
    assert_eq!(extract_nsid_from_attrs(&attrs), Some(5));
    assert_eq!(extract_nsid_from_attrs(&vec![NsidAttribute::Id(i32::MAX)]), Some(i32::MAX));
    assert_eq!(extract_nsid_from_attrs(&vec![]), None);
}

#[test]
fn reply_reports_the_first_assigned_id() {
    assert_eq!(reply_nsid(NsidMessageKind::New, &vec![NsidAttribute::Id(7)]), Some(7));
    assert_eq!(reply_nsid(NsidMessageKind::New, &vec![NsidAttribute::CurrentNsid(8)]), Some(8));
    assert_eq!(
        reply_nsid(NsidMessageKind::New, &vec![NsidAttribute::Id(-1), NsidAttribute::CurrentNsid(8)]),
        Some(8)
    );
    assert_eq!(
        reply_nsid(NsidMessageKind::New, &vec![NsidAttribute::TargetNsid(2), NsidAttribute::Id(0)]),
        Some(0)
    );
    assert_eq!(reply_nsid(NsidMessageKind::New, &vec![NsidAttribute::Id(-1)]), None);
    assert_eq!(reply_nsid(NsidMessageKind::New, &vec![]), None);
    assert_eq!(reply_nsid(NsidMessageKind::Del, &vec![NsidAttribute::Id(7)]), None);
    assert_eq!(reply_nsid(NsidMessageKind::Get, &vec![NsidAttribute::Id(7)]), None);
}
