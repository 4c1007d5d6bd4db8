use haste::{
    BitWriter, Context, DemoError, FieldValue, FromPacket, HandlerVisitor, IntoPacketHandler,
    NopVisitor, PacketHandlerWrapper, Parser, PATH_SENTINEL,
};

fn write_lp(w: &mut BitWriter, bytes: &[u8]) {
    w.write_varint32(bytes.len() as u32).unwrap();
    w.write_bytes(&bytes.to_vec()).unwrap();
}

fn magic() -> Vec<u8> {
    vec![0x50, 0x42, 0x44, 0x45, 0x4D, 0x53, 0x32, 0x00]
}

fn put_cmd(w: &mut BitWriter, command: u32, tick: u32, payload: &[u8]) {
    w.write_varint32(command).unwrap();
    w.write_varint32(tick).unwrap();
    w.write_varint32(payload.len() as u32).unwrap();
    w.write_bytes(&payload.to_vec()).unwrap();
}

fn send_tables_payload() -> Vec<u8> {
    // one serializer, two primitive eight-bit fields
    let mut w = BitWriter::new();
    w.write_varint32(1).unwrap();
    write_lp(&mut w, b"player");
    w.write_varint32(0).unwrap(); // version
    w.write_varint32(2).unwrap(); // two fields
    for name in [b"health".as_slice(), b"armor".as_slice()] {
        write_lp(&mut w, name);
        w.write_bool(false).unwrap(); // primitive
        w.write_bits(1, 8).unwrap(); // unsigned rule
        w.write_varint32(8).unwrap(); // eight bits
        w.write_bool(false).unwrap(); // not repeated
    }
    w.into_bytes()
}

fn class_info_payload() -> Vec<u8> {
    let mut w = BitWriter::new();
    w.write_varint32(1).unwrap(); // one class
    w.write_varint32(0).unwrap(); // id zero
    write_lp(&mut w, b"player");
    w.into_bytes()
}

fn baseline_diff(values: &[u8]) -> Vec<u8> {
    // one entry: key "0", value = the baseline blob
    let mut w = BitWriter::new();
    w.write_bool(true).unwrap(); // consecutive index: zero
    w.write_bool(true).unwrap(); // has key
    w.write_bits(0, 5).unwrap(); // no shared prefix
    w.write_ubitvar(1).unwrap();
    w.write_bytes(&b"0".to_vec()).unwrap();
    w.write_bool(true).unwrap(); // has value
    w.write_bool(false).unwrap(); // not a back-reference
    w.write_ubitvar(values.len() as u32).unwrap();
    w.write_bytes(&values.to_vec()).unwrap();
    w.write_bool(false).unwrap(); // no user int
    w.into_bytes()
}

fn create_table_msg(compressed: bool, diff: &[u8]) -> Vec<u8> {
    let body: Vec<u8> = if compressed {
        snap::raw::Encoder::new().compress_vec(diff).unwrap()
    } else {
        diff.to_vec()
    };
    let mut w = BitWriter::new();
    write_lp(&mut w, b"instance_baseline");
    w.write_bool(false).unwrap(); // variable-size values
    w.write_bool(compressed).unwrap();
    w.write_varint32(0).unwrap(); // value bit width (unused)
    w.write_varint32(1).unwrap(); // one entry
    write_lp(&mut w, &body);
    w.into_bytes()
}

fn packet_entities_msg(delta: Option<(u32, u32)>) -> Vec<u8> {
    // one create for handle zero of class zero; `delta` optionally
    // marks one ordinal with a new eight-bit value
    let mut e = BitWriter::new();
    e.write_ubitvar(0).unwrap(); // handle delta: zero
    e.write_bits(2, 2).unwrap(); // create
    // class id: zero bits, one class declared
    match delta {
        None => {
            e.write_ubitvar(PATH_SENTINEL).unwrap();
        },
        Some((ord, value)) => {
            e.write_ubitvar(ord).unwrap(); // skip straight to the ordinal
            e.write_ubitvar(PATH_SENTINEL).unwrap();
            e.write_bits(value, 8).unwrap();
        },
    }
    let data = e.into_bytes();
    let mut w = BitWriter::new();
    w.write_varint32(1).unwrap(); // one operation
    write_lp(&mut w, &data);
    w.into_bytes()
}

fn packet_payload(msgs: &[(u32, Vec<u8>)]) -> Vec<u8> {
    let mut w = BitWriter::new();
    for (tag, data) in msgs {
        w.write_ubitvar(*tag).unwrap();
        w.write_varint32(data.len() as u32).unwrap();
        w.write_bytes(data).unwrap();
    }
    w.into_bytes()
}

fn demo_bytes(compressed_baseline: bool, delta: Option<(u32, u32)>) -> Vec<u8> {
    let mut w = BitWriter::new();
    w.write_bytes(&magic()).unwrap();
    put_cmd(&mut w, 4, 0, &send_tables_payload());
    put_cmd(&mut w, 5, 0, &class_info_payload());
    let packet = packet_payload(&[
        (44, create_table_msg(compressed_baseline, &baseline_diff(&[100, 50]))),
        (55, packet_entities_msg(delta)),
    ]);
    put_cmd(&mut w, 7, 3, &packet);
    put_cmd(&mut w, 0, 0, &[]);
    w.into_bytes()
}

fn entity_u32(parser: &Parser<NopVisitor>, handle: u64, ord: usize) -> u32 {
    let e = parser.entities().get(handle).expect("entity");
    match e.field(ord) {
        Some(FieldValue::U32(v)) => *v,
        _ => panic!("expected a numeric field"),
    }
}

#[test]
fn end_to_end_create_from_baseline() {
    let data = demo_bytes(false, None);
    let mut parser = Parser::from_bytes_with_visitor(&data, NopVisitor {}).unwrap();
    parser.run_to_end().unwrap();
    assert_eq!(parser.entities().len(), 1);
    let e = parser.entities().get(0).expect("entity");
    assert_eq!(e.class_id, 0);
    assert!(e.active);
    assert_eq!(entity_u32(&parser, 0, 0), 100);
    assert_eq!(entity_u32(&parser, 0, 1), 50);
}

#[test]
fn end_to_end_delta_overlays_baseline() {
    // the delta touches ordinal one only; ordinal zero keeps the
    // baseline value
    let data = demo_bytes(false, Some((1, 77)));
    let mut parser = Parser::from_bytes_with_visitor(&data, NopVisitor {}).unwrap();
    parser.run_to_end().unwrap();
    assert_eq!(entity_u32(&parser, 0, 0), 100);
    assert_eq!(entity_u32(&parser, 0, 1), 77);
}

#[test]
fn end_to_end_compressed_baseline() {
    // the same result through a snappy-compressed table snapshot
    let data = demo_bytes(true, None);
    let mut parser = Parser::from_bytes_with_visitor(&data, NopVisitor {}).unwrap();
    parser.run_to_end().unwrap();
    assert_eq!(entity_u32(&parser, 0, 0), 100);
    assert_eq!(entity_u32(&parser, 0, 1), 50);
}

#[test]
fn truncated_command_reports_truncated() {
    // a command declaring one hundred bytes with only fifty available
    let mut w = BitWriter::new();
    w.write_bytes(&magic()).unwrap();
    w.write_varint32(7).unwrap(); // packet command
    w.write_varint32(0).unwrap(); // tick
    w.write_varint32(100).unwrap(); // declared size
    w.write_bytes(&vec![0u8; 50]).unwrap(); // half of it
    let data = w.into_bytes();
    let mut parser = Parser::from_bytes_with_visitor(&data, NopVisitor {}).unwrap();
    assert_eq!(parser.run_to_end(), Err(DemoError::Truncated));
}

#[test]
fn invalid_header_is_fatal() {
    let data = vec![0u8; 16];
    assert!(matches!(
        Parser::from_bytes_with_visitor(&data, NopVisitor {}),
        Err(DemoError::InvalidHeader)
    ));
}

#[test]
fn unknown_commands_are_skipped() {
    let mut w = BitWriter::new();
    w.write_bytes(&magic()).unwrap();
    put_cmd(&mut w, 33, 0, &[1, 2, 3]); // unrecognized tag
    put_cmd(&mut w, 0, 0, &[]);
    let data = w.into_bytes();
    let mut parser = Parser::from_bytes_with_visitor(&data, NopVisitor {}).unwrap();
    parser.run_to_end().unwrap();
    assert_eq!(parser.entities().len(), 0);
}

#[test]
fn end_of_input_stops_the_stream() {
    let data = magic();
    let mut parser = Parser::from_bytes_with_visitor(&data, NopVisitor {}).unwrap();
    parser.run_to_end().unwrap();
}

struct CountMessages;

impl IntoPacketHandler<u32, Context> for CountMessages {
    fn handle(&self, state: &mut u32, _msg: Context) {
        *state += 1;
    }
}

#[test]
fn handler_visitor_counts_messages() {
    let data = demo_bytes(false, None);
    let visitor: HandlerVisitor<u32, PacketHandlerWrapper<u32, CountMessages, Context>> =
        HandlerVisitor::with_state(0u32).with(CountMessages.wrap());
    let mut parser = Parser::from_bytes_with_visitor(&data, visitor).unwrap();
    parser.run_to_end().unwrap();
    // the one packet command carried two service messages
    assert_eq!(*parser.visitor().state(), 2);
}

struct LastTick;

impl IntoPacketHandler<u32, Context> for LastTick {
    fn handle(&self, state: &mut u32, msg: Context) {
        *state = msg.tick();
    }
}

#[test]
fn handler_sees_command_tick() {
    let data = demo_bytes(false, None);
    let visitor: HandlerVisitor<u32, PacketHandlerWrapper<u32, LastTick, Context>> =
        HandlerVisitor::with_state(0u32).with(LastTick.wrap());
    let mut parser = Parser::from_bytes_with_visitor(&data, visitor).unwrap();
    parser.run_to_end().unwrap();
    assert_eq!(*parser.visitor().state(), 3);
}

#[test]
fn from_context_always_extracts_context() {
    let ctx = Context { tick: 9 };
    let got = Context::from_context(&ctx, 1, &vec![1, 2]);
    assert_eq!(got, Some(ctx));
}

#[test]
fn bad_compressed_body_reports_decompression_failure() {
    // a create message flagged compressed whose body is not snappy
    let mut m = BitWriter::new();
    m.write_varint32(17).unwrap();
    m.write_bytes(&b"instance_baseline".to_vec()).unwrap();
    m.write_bool(false).unwrap();
    m.write_bool(true).unwrap(); // claims compression
    m.write_varint32(0).unwrap();
    m.write_varint32(1).unwrap();
    m.write_varint32(4).unwrap();
    m.write_bytes(&vec![0xFF, 0xFF, 0xFF, 0xFF]).unwrap();
    let msg = m.into_bytes();

    let mut w = BitWriter::new();
    w.write_bytes(&magic()).unwrap();
    put_cmd(&mut w, 7, 0, &packet_payload(&[(44, msg)]));
    put_cmd(&mut w, 0, 0, &[]);
    let data = w.into_bytes();
    let mut parser = Parser::from_bytes_with_visitor(&data, NopVisitor {}).unwrap();
    assert_eq!(parser.run_to_end(), Err(DemoError::DecompressionFailed));
}

#[test]
fn update_refreshes_baseline_for_later_creates() {
    // after an incremental diff rewrites the baseline blob, a second
    // entity picks up the new defaults while the first keeps its own
    let mut w = BitWriter::new();
    w.write_bytes(&magic()).unwrap();
    put_cmd(&mut w, 4, 0, &send_tables_payload());
    put_cmd(&mut w, 5, 0, &class_info_payload());
    let first = packet_payload(&[
        (44, create_table_msg(false, &baseline_diff(&[100, 50]))),
        (55, packet_entities_msg(None)),
    ]);
    put_cmd(&mut w, 7, 1, &first);

    // rewrite entry zero's value, then create a second entity
    let mut d = BitWriter::new();
    d.write_bool(true).unwrap(); // index zero again
    d.write_bool(false).unwrap(); // key unchanged
    d.write_bool(true).unwrap(); // new value
    d.write_bool(false).unwrap();
    d.write_ubitvar(2).unwrap();
    d.write_bytes(&vec![7, 8]).unwrap();
    d.write_bool(false).unwrap();
    let diff = d.into_bytes();
    let mut um = BitWriter::new();
    um.write_varint32(0).unwrap(); // table id
    um.write_varint32(1).unwrap(); // one changed entry
    um.write_varint32(diff.len() as u32).unwrap();
    um.write_bytes(&diff).unwrap();
    let update_msg = um.into_bytes();

    let mut e2 = BitWriter::new();
    e2.write_ubitvar(1).unwrap(); // handle one
    e2.write_bits(2, 2).unwrap(); // create
    e2.write_ubitvar(PATH_SENTINEL).unwrap();
    let ed = e2.into_bytes();
    let mut pe = BitWriter::new();
    pe.write_varint32(1).unwrap();
    pe.write_varint32(ed.len() as u32).unwrap();
    pe.write_bytes(&ed).unwrap();
    let pe_msg = pe.into_bytes();

    let second = packet_payload(&[(45, update_msg), (55, pe_msg)]);
    put_cmd(&mut w, 7, 2, &second);
    put_cmd(&mut w, 0, 0, &[]);
    let data = w.into_bytes();

    let mut parser = Parser::from_bytes_with_visitor(&data, NopVisitor {}).unwrap();
    parser.run_to_end().unwrap();
    assert_eq!(parser.entities().len(), 2);
    assert_eq!(entity_u32(&parser, 0, 0), 100);
    assert_eq!(entity_u32(&parser, 0, 1), 50);
    assert_eq!(entity_u32(&parser, 1, 0), 7);
    assert_eq!(entity_u32(&parser, 1, 1), 8);
}

#[test]
fn delete_and_leave_through_the_stream() {
    let mut w = BitWriter::new();
    w.write_bytes(&magic()).unwrap();
    put_cmd(&mut w, 4, 0, &send_tables_payload());
    put_cmd(&mut w, 5, 0, &class_info_payload());
    let first = packet_payload(&[
        (44, create_table_msg(false, &baseline_diff(&[100, 50]))),
        (55, packet_entities_msg(None)),
    ]);
    put_cmd(&mut w, 7, 1, &first);

    // leave, then delete, the same entity
    let mut e1 = BitWriter::new();
    e1.write_ubitvar(0).unwrap();
    e1.write_bits(1, 2).unwrap(); // leave
    let d1 = e1.into_bytes();
    let mut p1 = BitWriter::new();
    p1.write_varint32(1).unwrap();
    p1.write_varint32(d1.len() as u32).unwrap();
    p1.write_bytes(&d1).unwrap();
    let m1 = p1.into_bytes();
    put_cmd(&mut w, 7, 2, &packet_payload(&[(55, m1)]));

    let mut e2 = BitWriter::new();
    e2.write_ubitvar(0).unwrap();
    e2.write_bits(3, 2).unwrap(); // delete
    let d2 = e2.into_bytes();
    let mut p2 = BitWriter::new();
    p2.write_varint32(1).unwrap();
    p2.write_varint32(d2.len() as u32).unwrap();
    p2.write_bytes(&d2).unwrap();
    let m2 = p2.into_bytes();
    put_cmd(&mut w, 7, 3, &packet_payload(&[(55, m2)]));
    put_cmd(&mut w, 0, 0, &[]);
    let data = w.into_bytes();

    // run once up to the leave, checking the entity is retained
    let mut parser = Parser::from_bytes_with_visitor(&data, NopVisitor {}).unwrap();
    parser.run_to_end().unwrap();
    // after the delete the store is empty again
    assert_eq!(parser.entities().len(), 0);
}

#[test]
fn entity_update_touches_only_marked_ordinals() {
    // create from the baseline, then a delta update that rewrites
    // ordinal zero only
    let mut w = BitWriter::new();
    w.write_bytes(&magic()).unwrap();
    put_cmd(&mut w, 4, 0, &send_tables_payload());
    put_cmd(&mut w, 5, 0, &class_info_payload());
    let first = packet_payload(&[
        (44, create_table_msg(false, &baseline_diff(&[100, 50]))),
        (55, packet_entities_msg(None)),
    ]);
    put_cmd(&mut w, 7, 1, &first);

    let mut e = BitWriter::new();
    e.write_ubitvar(0).unwrap(); // handle zero again
    e.write_bits(0, 2).unwrap(); // delta update
    e.write_ubitvar(0).unwrap(); // mark ordinal zero
    e.write_ubitvar(PATH_SENTINEL).unwrap();
    e.write_bits(33, 8).unwrap(); // its new value
    let ed = e.into_bytes();
    let mut pe = BitWriter::new();
    pe.write_varint32(1).unwrap();
    pe.write_varint32(ed.len() as u32).unwrap();
    pe.write_bytes(&ed).unwrap();
    put_cmd(&mut w, 7, 2, &packet_payload(&[(55, pe.into_bytes())]));
    put_cmd(&mut w, 0, 0, &[]);
    let data = w.into_bytes();

    let mut parser = Parser::from_bytes_with_visitor(&data, NopVisitor {}).unwrap();
    parser.run_to_end().unwrap();
    assert_eq!(entity_u32(&parser, 0, 0), 33);
    assert_eq!(entity_u32(&parser, 0, 1), 50);
}

#[test]
fn update_of_missing_entity_fails() {
    let mut w = BitWriter::new();
    w.write_bytes(&magic()).unwrap();
    put_cmd(&mut w, 4, 0, &send_tables_payload());
    put_cmd(&mut w, 5, 0, &class_info_payload());
    let mut e = BitWriter::new();
    e.write_ubitvar(9).unwrap(); // a handle never created
    e.write_bits(0, 2).unwrap(); // delta update
    let ed = e.into_bytes();
    let mut pe = BitWriter::new();
    pe.write_varint32(1).unwrap();
    pe.write_varint32(ed.len() as u32).unwrap();
    pe.write_bytes(&ed).unwrap();
    put_cmd(&mut w, 7, 1, &packet_payload(&[(55, pe.into_bytes())]));
    put_cmd(&mut w, 0, 0, &[]);
    let data = w.into_bytes();
    let mut parser = Parser::from_bytes_with_visitor(&data, NopVisitor {}).unwrap();
    assert_eq!(parser.run_to_end(), Err(DemoError::UnknownEntity));
}
