use soter::stun::{Attribute, Class, Message, Method, Software, Type, MAGIC_COOKIE};

fn software(text: &str) -> Attribute {
    Attribute::Software(Software::new(text.as_bytes().to_vec()).unwrap())
}

#[test]
fn test_message() {
    let mut message = Message::new(Type {
        class: Class::Request,
        method: Method::Binding,
    })
    .unwrap();

    let software0 = "my unicorn company name";
    message.push(software(software0));

    let message: Vec<u8> = message.into();

    // Type
    assert_eq!(&message[0..2], &[0, 1]);
    // Size
    assert_eq!(&message[2..4], &[0, 0x1c]);
    // Magic cookie
    assert_eq!(&message[4..8], MAGIC_COOKIE.to_be_bytes());
    // Transaction ID
    let tid1 = &message[8..20];

    let mut message = Message::new(Type {
        class: Class::Error,
        method: Method::ChannelBind,
    })
    .unwrap();

    let software1 = "oxalis v1.2.5";
    message.push(software(software1));
    let software2 = "another cool name v2.5.2";
    message.push(software(software2));
    let software3 = "another cool name v3.4.4";
    message.push(software(software3));

    let message: Vec<u8> = message.into();

    // Type
    assert_eq!(&message[0..2], &[1, 0x19]);
    // Size
    assert_eq!(&message[2..4], &[0, 0x4c]);
    // Magic cookie
    assert_eq!(&message[4..8], MAGIC_COOKIE.to_be_bytes());
    // Transaction ID
    let tid2 = &message[8..20];

    assert_ne!(tid1, tid2);
}

#[test]
fn test_from_type() {
    let ty = Type {
        class: Class::Request,
        method: Method::Binding,
    };

    assert_eq!(1u16, ty.into());
    assert_eq!([0, 1], <[u8; 2]>::from(ty));

    let ty = Type {
        class: Class::Indication,
        method: Method::Data,
    };

    assert_eq!(0x17u16, ty.into());
    assert_eq!([0, 0x17], <[u8; 2]>::from(ty));

    let ty = Type {
        class: Class::Success,
        method: Method::Refresh,
    };

    assert_eq!(0x104u16, ty.into());
    assert_eq!([1, 0x4], <[u8; 2]>::from(ty));

    let ty = Type {
        class: Class::Error,
        method: Method::ChannelBind,
    };

    assert_eq!(0x119u16, ty.into());
    assert_eq!([1, 0x19], <[u8; 2]>::from(ty));
}

#[test]
fn test_message_class() {
    assert_eq!(0, Class::Request.code());
    assert_eq!(1, Class::Indication.code());
    assert_eq!(2, Class::Success.code());
    assert_eq!(3, Class::Error.code());
}

#[test]
fn test_message_method() {
    assert_eq!(1, Method::Binding.code());
    assert_eq!(3, Method::Allocate.code());
    assert_eq!(4, Method::Refresh.code());
    assert_eq!(6, Method::Send.code());
    assert_eq!(7, Method::Data.code());
    assert_eq!(8, Method::CreatePermission.code());
    assert_eq!(9, Method::ChannelBind.code());
}

#[test]
fn message_with_parts_encodes_header_and_padded_attribute() {
    let tid = [1u8, 2, 3, 4, 5, 6, 7, 8, 9, 10, 11, 12];
    let ty = Type {
        class: Class::Success,
        method: Method::Binding,
    };
    let message = Message::with_parts(tid, ty, vec![software("abcde")]);
    assert_eq!(message.len(), 12);
    let bytes = message.to_bytes();
    assert_eq!(
        bytes,
        vec![
            0x01, 0x01, 0, 12, 0x21, 0x12, 0xA4, 0x42, 1, 2, 3, 4, 5, 6, 7, 8, 9, 10, 11, 12, 0x80,
            0x22, 0, 5, b'a', b'b', b'c', b'd', b'e', 0, 0, 0
        ]
    );
}

#[test]
fn empty_message_has_zero_length() {
    let message = Message::new(Type {
        class: Class::Indication,
        method: Method::Send,
    })
    .unwrap();
    assert_eq!(message.len(), 0);
    let bytes = message.to_bytes();
    assert_eq!(bytes.len(), 20);
    assert_eq!(&bytes[0..4], &[0, 0x16, 0, 0]);
}

#[test]
fn software_rejects_overlong_value() {
    assert!(Software::new(vec![b'x'; 763]).is_some());
    assert!(Software::new(vec![b'x'; 764]).is_none());
    let attr = software("abcd");
    assert_eq!(attr.len(), 8);
    assert_eq!(attr.to_bytes(), vec![0x80, 0x22, 0, 4, b'a', b'b', b'c', b'd']);
}

#[test]
fn length_field_and_into_match_to_bytes() {
    let tid = [9u8; 12];
    let ty = Type {
        class: Class::Request,
        method: Method::Allocate,
    };
    let message = Message::with_parts(tid, ty, vec![software("a"), software("abcdefgh")]);
    assert_eq!(message.len(), 20);
    assert_eq!(message.length_field(), 20);
    let bytes = message.to_bytes();
    assert_eq!(bytes.len(), 40);
    assert_eq!(&bytes[8..20], &tid);
    let into: Vec<u8> = message.into();
    assert_eq!(into, bytes);
}
