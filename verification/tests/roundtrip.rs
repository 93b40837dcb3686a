use hairball::{Builder, LocalEntity, ExternalEntity, Reader, Uuid};

fn open(bytes: &[u8]) -> Reader {
    Reader::read(bytes).unwrap()
}

#[test]
fn eid_0_to_10_write() {
    // Write
    let mut hairball = Builder::new();
    for i in 0..10 {
        hairball.add_entity(LocalEntity::named(format!("{}", i)));
    }
    let bytes = hairball.close();

    // Read
    let hairball = open(&bytes);
    assert_eq!(hairball.entities_len(), 10);
    for i in 0..hairball.entities_len() {
        let e = hairball.entity(i).unwrap();
        assert_eq!(&format!("{}", i), e.name().unwrap());
    }
}

/// This is big enough to trip the segment table and force it to be
/// written at the end of the file rather then the start
#[test]
fn eid_0_to_140_000_write() {
    let mut hairball = Builder::new();
    for i in 0..140_000 {
        hairball.add_entity(LocalEntity::named(format!("{}", i)));
    }
    let bytes = hairball.close();

    let hairball = open(&bytes);
    assert_eq!(hairball.entities_len(), 140_000);
    for i in 0..hairball.entities_len() {
        let e = hairball.entity(i).unwrap();
        assert_eq!(&format!("{}", i), e.name().unwrap());
    }
}

#[test]
fn parent_list() {
    let mut hairball = Builder::new();

    let mut parent = None;
    for _ in 0..10 {
        let e = if let Some(p) = parent {
            LocalEntity::anonymous().parent(p)
        } else {
            LocalEntity::anonymous()
        };
        parent = Some(hairball.add_entity(e));
    }

    let bytes = hairball.close();

    let hairball = open(&bytes);
    assert_eq!(hairball.entities_len(), 10);
    for i in 1..hairball.entities_len() {
        let e = hairball.entity(i).unwrap();
        assert_eq!(Some((i - 1) as u32), e.parent());
    }
}

#[test]
fn write_external() {
    let mut hairball = Builder::new();

    let a = Uuid::from_bytes(uuid::Uuid::new_v4().as_bytes());
    let b = Uuid::from_bytes(uuid::Uuid::new_v4().as_bytes());

    for i in 0..5 {
        hairball.add_external_entity(ExternalEntity::new(a, format!("{}", i)));
        hairball.add_external_entity(ExternalEntity::new(b, format!("{}", i)));
    }

    let bytes = hairball.close();

    let hairball = open(&bytes);
    assert_eq!(hairball.external_len(), 2);
    let a = hairball.external(0).unwrap();
    let b = hairball.external(1).unwrap();
    assert!(hairball.external(2).is_none());

    assert_eq!(hairball.entities_len(), 10);
    for i in 0..5 {
        assert_eq!(&a, hairball.entity(i * 2 + 0).unwrap().file().unwrap());
        assert_eq!(&format!("{}", i), hairball.entity(i * 2 + 0).unwrap().name().unwrap());
        assert_eq!(&b, hairball.entity(i * 2 + 1).unwrap().file().unwrap());
        assert_eq!(&format!("{}", i), hairball.entity(i * 2 + 1).unwrap().name().unwrap());
    }
    assert!(hairball.entity(10).is_none());
}

#[test]
fn read_uuid() {
    let hairball = Builder::new();
    let uuid = hairball.uuid();
    let bytes = hairball.close();

    let hairball = open(&bytes);
    assert_eq!(uuid, hairball.uuid());
}

#[test]
fn columns() {
    let mut hairball = Builder::new();
    for i in 0..1_000 {
        let idx = hairball.column(&format!("column_{}", i));
        let s = format!("column_{} \\o/", i);
        hairball.set_column_data(idx, s.into_bytes());
    }
    for i in 0..1_000 {
        let idx = hairball.column(&format!("column_{}", i));
        let s = format!("column_{} \\o/", i);
        assert_eq!(s.as_bytes(), hairball.column_data(idx).as_slice());
    }
    let bytes = hairball.close();

    let hairball = open(&bytes);
    for i in 0..1_000 {
        println!("Looking for {}", i);
        let data = hairball.column(&format!("column_{}", i)).unwrap();
        let s = format!("column_{} \\o/", i);
        assert_eq!(s.as_bytes(), data.as_slice());
    }
}
