use pbr::bxdf::{BxDFSet, BxDFType, BxDFs, SpecularReflection, TorranceSparrow};
use pbr::material::{Glass, Materials, Matte, Plastic};
use pbr::texture::ConstantTexture;
use std::sync::Arc;
use pbr::bxdf::BxDFType::{Diffuse, Glossy, Reflection, Specular, Transmission};

fn set_of(kinds: &[BxDFType]) -> BxDFSet {
    let mut s = BxDFSet::new();
    for k in kinds {
        s.insert(*k);
    }
    s
}

#[test]
fn type_sets_hold_their_kinds() {
    assert_eq!(BxDFType::all_types(), set_of(&[Diffuse, Glossy, Specular]));
    assert_eq!(BxDFType::all_brdf(), set_of(&[Diffuse, Glossy, Specular, Reflection]));
    assert_eq!(BxDFType::all_btdf(), set_of(&[Diffuse, Glossy, Specular, Transmission]));
    assert_eq!(BxDFType::all(), set_of(&[Reflection, Transmission, Diffuse, Glossy, Specular]));
    assert_eq!(BxDFType::specular(), set_of(&[Specular, Reflection, Transmission]));
    assert_eq!(BxDFType::non_specular(), set_of(&[Diffuse, Glossy, Reflection, Transmission]));
}

#[test]
fn insert_and_remove_report_changes() {
    let mut s = BxDFSet::new();
    assert!(s.insert(BxDFType::Glossy));
    assert!(!s.insert(BxDFType::Glossy));
    assert!(s.contains(&BxDFType::Glossy));
    assert!(!s.contains(&BxDFType::Diffuse));
    assert!(s.remove(&BxDFType::Glossy));
    assert!(!s.remove(&BxDFType::Glossy));
    assert_eq!(s, BxDFSet::new());
}

#[test]
fn matching_is_inclusion() {
    let specular_reflection = set_of(&[BxDFType::Specular, BxDFType::Reflection]);
    assert!(pbr::bxdf::matches(&specular_reflection, &BxDFType::all()));
    assert!(pbr::bxdf::matches(&specular_reflection, &BxDFType::specular()));
    assert!(!pbr::bxdf::matches(&specular_reflection, &BxDFType::non_specular()));
    assert!(!pbr::bxdf::matches(&specular_reflection, &BxDFType::all_btdf()));
}

#[test]
fn kinds_number_in_declaration_order() {
    assert_eq!(BxDFType::Reflection.to_u32(), 0);
    assert_eq!(BxDFType::Transmission.to_u32(), 1);
    assert_eq!(BxDFType::Diffuse.to_u32(), 2);
    assert_eq!(BxDFType::Glossy.to_u32(), 3);
    assert_eq!(BxDFType::Specular.to_u32(), 4);
}

#[test]
fn union_of_brdf_and_btdf_is_all() {
    assert_eq!(BxDFType::all_brdf().union(BxDFType::all_btdf()), BxDFType::all());
    assert_eq!(BxDFType::specular().union(BxDFType::non_specular()), BxDFType::all());
}

#[test]
fn specular_reflection_is_specular_and_reflective() {
    let fresnel = 1.5f32;
    let s = SpecularReflection::new(&(1.0f32, 1.0f32, 1.0f32), &fresnel);
    let t = s.bxdf_type();
    assert!(t.contains(&BxDFType::Specular));
    assert!(t.contains(&BxDFType::Reflection));
    assert!(!t.contains(&BxDFType::Glossy));
    assert!(!t.contains(&BxDFType::Diffuse));
    assert!(!t.contains(&BxDFType::Transmission));
    let b: BxDFs<(f32, f32, f32), f32, f32> = SpecularReflection::new_bxdf(&(0.5, 0.5, 0.5), &fresnel);
    assert!(b.matches(BxDFType::specular()));
    assert!(!b.matches(BxDFType::non_specular()));
    assert!(b.matches(BxDFType::all_brdf()));
    assert!(!b.matches(BxDFType::all_btdf()));
}

#[test]
fn torrance_sparrow_is_glossy_and_reflective() {
    let fresnel = 1.5f32;
    let micro = 0.2f32;
    let t = TorranceSparrow::new(&(1.0f32, 0.0f32, 0.0f32), &fresnel, &micro).bxdf_type();
    assert!(t.contains(&BxDFType::Glossy));
    assert!(t.contains(&BxDFType::Reflection));
    assert!(!t.contains(&BxDFType::Specular));
    let b = TorranceSparrow::new_bxdf(&(1.0f32, 0.0f32, 0.0f32), &fresnel, &micro);
    assert!(b.matches(BxDFType::non_specular()));
    assert!(!b.matches(BxDFType::specular()));
    assert!(b.matches(BxDFType::all()));
}

#[test]
fn materials_are_built_with_their_kind() {
    let tex = Arc::new(ConstantTexture::new(0.5f32));
    match Glass::new_material(tex.clone(), tex.clone(), tex.clone()) {
        Materials::Glass(_) => {}
        _ => panic!("expected glass"),
    }
    match Plastic::new_material(tex.clone(), tex.clone(), tex.clone()) {
        Materials::Plastic(_) => {}
        _ => panic!("expected plastic"),
    }
    let _m = Matte::new(tex.clone(), tex);
}
