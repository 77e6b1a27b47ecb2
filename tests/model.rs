use slicing::error::Error;
use slicing::mesh::{Mesh, Triangle};
use slicing::model::{load_model, single_object, Object};
use slicing::units::Unit;

fn tri(v1: usize, v2: usize, v3: usize) -> Triangle {
    Triangle { v1, v2, v3 }
}

fn tetrahedron() -> Mesh<[f64; 3]> {
    Mesh {
        vertices: vec![
            [0.0, 0.0, 0.0],
            [1.0, 0.0, 0.0],
            [0.0, 1.0, 0.0],
            [0.0, 0.0, 1.0],
        ],
        triangles: vec![tri(0, 2, 1), tri(0, 1, 3), tri(0, 3, 2), tri(1, 2, 3)],
    }
}

fn object(id: usize, mesh: Mesh<[f64; 3]>) -> Object<[f64; 3]> {
    Object {
        id,
        name: format!("part {}", id),
        otype: "model".to_string(),
        mesh,
    }
}

#[test]
fn test_load_model() {
    match load_model("millimeters", vec![object(1, tetrahedron())]) {
        Ok(m) => {
            println!("{:?}", m.unit);
            assert_eq!(m.unit, Unit::Millimeter);
            assert_eq!(m.objects.len(), 1);
            assert_eq!(m.objects[0].mesh.triangles.len(), 4);
        }
        Err(e) => {
            println!("{:?}", e);
            assert!(false)
        }
    }
}

#[test]
fn load_model_without_objects_is_empty_model() {
    let r = load_model::<[f64; 3]>("millimeters", vec![]);
    assert!(matches!(r, Err(Error::EmptyModel)));
}

#[test]
fn load_model_with_bad_index_is_refused() {
    let mut mesh = tetrahedron();
    mesh.triangles.push(tri(0, 1, 4));
    let r = load_model("millimeters", vec![object(1, mesh)]);
    assert!(matches!(r, Err(Error::InvalidTriangle)));
}

#[test]
fn load_model_reads_the_unit() {
    let m = load_model("inches", vec![object(1, tetrahedron())]).ok().unwrap();
    assert_eq!(m.unit, Unit::Inch);
    let m = load_model("millimeter", vec![object(1, tetrahedron())]).ok().unwrap();
    assert_eq!(m.unit, Unit::Unknown);
}

#[test]
fn single_object_of_two_is_too_many_models() {
    let m = load_model(
        "meters",
        vec![object(1, tetrahedron()), object(2, tetrahedron())],
    )
    .ok()
    .unwrap();
    assert_eq!(m.num_objects(), 2);
    assert!(matches!(single_object(&m), Err(Error::TooManyModels)));
}

#[test]
fn single_object_of_one_is_that_object() {
    let m = load_model("meters", vec![object(7, tetrahedron())]).ok().unwrap();
    let o = single_object(&m).ok().unwrap();
    assert_eq!(o.id, 7);
    assert_eq!(o.name, "part 7");
}

#[test]
fn unit_names() {
    assert_eq!(Unit::new("meters"), Unit::Meter);
    assert_eq!(Unit::new("centimeters"), Unit::Centimeter);
    assert_eq!(Unit::new("millimeters"), Unit::Millimeter);
    assert_eq!(Unit::new("feet"), Unit::Foot);
    assert_eq!(Unit::new("inches"), Unit::Inch);
    assert_eq!(Unit::new("furlongs"), Unit::Unknown);
    assert_eq!(Unit::new(""), Unit::Unknown);
    assert_eq!("feet".parse::<Unit>().ok(), Some(Unit::Foot));
}
