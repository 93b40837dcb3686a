use hairball::builder::BuilderMapping;
use hairball::mesh::{Attribute, AttributeKind, VertexBuffer};
use hairball::draw_binding::DrawBinding;
use hairball::geometry::Geometry;
use hairball::material::{Component, Value};
use hairball::{draw_binding, geometry, material, mesh, mesh_index};
use hairball::{Builder, ExternalEntity, LocalEntity, Reader, Uuid};

fn three_entity_builder() -> Builder {
    let mut b = Builder::new();
    for i in 0..3 {
        b.add_entity(LocalEntity::named(format!("e{}", i)));
    }
    b
}

#[test]
fn geometry_round_trip() {
    let mut b = three_entity_builder();
    let rows = vec![
        (0u32, Geometry { mesh: 1u32, start: 0, length: 30 }),
        (2u32, Geometry { mesh: 0u32, start: 30, length: 12 }),
        // references an entity that does not exist: dropped on read
        (9u32, Geometry { mesh: 0u32, start: 0, length: 1 }),
    ];
    geometry::write(&mut b, &rows);
    let bytes = b.close();
    let r = Reader::read(&bytes).unwrap();
    let m = r.into_mapping(|i| i);
    let got = geometry::read(&m).unwrap();
    assert_eq!(got, rows[..2].to_vec());
}

#[test]
fn draw_binding_round_trip() {
    let mut b = three_entity_builder();
    let rows = vec![
        (0u32, DrawBinding { geometry: 1u32, material: 2u32 }),
        (1u32, DrawBinding { geometry: 7u32, material: 2u32 }), // dropped
    ];
    draw_binding::write(&mut b, &rows);
    let bytes = b.close();
    let r = Reader::read(&bytes).unwrap();
    let m = r.into_mapping(|i| i);
    let got = draw_binding::read(&m).unwrap();
    assert_eq!(got, rows[..1].to_vec());
}

#[test]
fn material_round_trip() {
    let mut b = three_entity_builder();
    let red = 1.0f32.to_bits();
    let zero = 0.0f32.to_bits();
    let one = 1.0f32.to_bits();
    let rows = vec![
        (0u32, Component::Ambient, Value::Color(red, zero, zero, one)),
        (1u32, Component::Diffuse, Value::Texture(2)),
        (2u32, Component::Specular, Value::Color(zero, zero, red, one)),
    ];
    material::write(&mut b, &rows);
    let bytes = b.close();
    let r = Reader::read(&bytes).unwrap();
    let m = r.into_mapping(|i| i);
    let got = material::read(&m).unwrap();
    assert_eq!(got, rows);
    // the color channels carry f32 bit patterns through unchanged
    match got[0].2 {
        Value::Color(c0, _, _, _) => assert_eq!(f32::from_bits(c0), 1.0),
        _ => panic!("expected a color"),
    }
}

#[test]
fn mesh_index_round_trip() {
    let mut b = three_entity_builder();
    let rows = vec![
        (0u32, vec![0u32, 1, 2, 2, 1, 0]),
        (1u32, vec![]),
        (8u32, vec![1u32]), // dropped
    ];
    mesh_index::write(&mut b, &rows);
    let bytes = b.close();
    let r = Reader::read(&bytes).unwrap();
    let m = r.into_mapping(|i| i);
    let got = mesh_index::read(&m).unwrap();
    assert_eq!(got, rows[..2].to_vec());
}

#[test]
fn missing_column_reads_absent() {
    let b = three_entity_builder();
    let bytes = b.close();
    let r = Reader::read(&bytes).unwrap();
    let m = r.into_mapping(|i| i);
    assert!(geometry::read(&m).is_none());
    assert!(mesh_index::read(&m).is_none());
}

#[test]
fn mapping_projects_entities() {
    let mut b = Builder::new();
    b.add_entity(LocalEntity::named("zero".to_string()));
    b.add_entity(LocalEntity::named("one".to_string()));
    let bytes = b.close();
    let r = Reader::read(&bytes).unwrap();
    let m = r.into_mapping(|i| format!("#{}", i));
    assert_eq!(m.len(), 2);
    assert_eq!(m.entity(0).unwrap(), "#0");
    assert_eq!(m.entity(1).unwrap(), "#1");
    assert!(m.entity(2).is_none());
    assert_eq!(m.reader().entities_len(), 2);
}

#[test]
fn builder_mapping_deduplicates() {
    let mut b = Builder::new();
    let mut m = BuilderMapping::new();
    let i1 = m.add_entity(&mut b, 42, LocalEntity::named("a".to_string()));
    let i2 = m.add_entity(&mut b, 42, LocalEntity::named("b".to_string()));
    let i3 = m.add_entity(&mut b, 7, LocalEntity::named("c".to_string()));
    assert_eq!(i1, i2);
    assert_ne!(i1, i3);
    assert_eq!(m.entity(42), Some(i1));
    assert_eq!(m.entity(7), Some(i3));
    assert_eq!(m.entity(1), None);
    let bytes = b.close();
    let r = Reader::read(&bytes).unwrap();
    assert_eq!(r.entities_len(), 2);
    assert_eq!(r.entity(i1 as usize).unwrap().name().unwrap(), "a");
}

#[test]
fn mesh_round_trip() {
    let mut b = three_entity_builder();
    let vb = VertexBuffer {
        data: vec![0, 1, 2, 3, 4, 5, 6, 7],
        attributes: vec![
            Attribute { name: "a_Position".to_string(), element_count: 3, kind: AttributeKind::F32 },
            Attribute { name: "a_Tex0".to_string(), element_count: 2, kind: AttributeKind::NormalizedU16 },
        ],
    };
    let rows = vec![
        (1u32, vec![vb.clone()]),
        (6u32, vec![vb.clone()]), // dropped: no such entity
        (2u32, vec![]),
    ];
    mesh::write(&mut b, &rows);
    let bytes = b.close();
    let r = Reader::read(&bytes).unwrap();
    let m = r.into_mapping(|i| i);
    let got = mesh::read(&m).unwrap();
    assert_eq!(got.len(), 2);
    assert_eq!(got[0].0, 1);
    assert_eq!(got[0].1, vec![vb]);
    assert_eq!(got[1], (2, vec![]));
}

#[test]
fn full_scene_round_trip() {
    let mut b = Builder::new();
    let root = b.add_entity(LocalEntity::named("root".to_string()));
    let mesh_e = b.add_entity(LocalEntity::named("mesh".to_string()).parent(root));
    let mat_e = b.add_entity(LocalEntity::anonymous().parent(root));
    let ext = b.add_external_entity(ExternalEntity::new(
        Uuid::from_bytes(&[0xAB; 16]),
        "shared/library".to_string(),
    ));
    let vb = VertexBuffer {
        data: vec![1, 2, 3, 4],
        attributes: vec![Attribute {
            name: "a_Position".to_string(),
            element_count: 3,
            kind: AttributeKind::F32,
        }],
    };
    mesh::write(&mut b, &[(mesh_e, vec![vb.clone()])]);
    mesh_index::write(&mut b, &[(mesh_e, vec![0, 1, 2])]);
    geometry::write(&mut b, &[(mesh_e, Geometry { mesh: mesh_e, start: 0, length: 3 })]);
    material::write(&mut b, &[(mat_e, Component::Diffuse, Value::Texture(ext))]);
    draw_binding::write(&mut b, &[(root, DrawBinding { geometry: mesh_e, material: mat_e })]);
    let uuid = b.uuid();
    let bytes = b.close();

    let r = Reader::read(&bytes).unwrap();
    assert_eq!(r.uuid(), uuid);
    assert_eq!(r.entities_len(), 4);
    assert_eq!(r.external_len(), 1);
    assert_eq!(r.entity(1).unwrap().parent(), Some(root));
    assert_eq!(
        r.entity(ext as usize).unwrap().file().unwrap(),
        &Uuid::from_bytes(&[0xAB; 16])
    );
    let m = r.into_mapping(|i| i);
    assert_eq!(mesh::read(&m).unwrap(), vec![(mesh_e, vec![vb])]);
    assert_eq!(mesh_index::read(&m).unwrap(), vec![(mesh_e, vec![0, 1, 2])]);
    assert_eq!(
        geometry::read(&m).unwrap(),
        vec![(mesh_e, Geometry { mesh: mesh_e, start: 0, length: 3 })]
    );
    assert_eq!(
        material::read(&m).unwrap(),
        vec![(mat_e, Component::Diffuse, Value::Texture(ext))]
    );
    assert_eq!(
        draw_binding::read(&m).unwrap(),
        vec![(root, DrawBinding { geometry: mesh_e, material: mat_e })]
    );
}
