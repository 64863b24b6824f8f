use pbr::integrator::{Integrators, Path, Whitted};
use pbr::render_target::RenderTarget;
use pbr::texture::ConstantTexture;
use pbr::utils::{extension_matches, has_extension, resolve_filename};

#[test]
fn render_target_keeps_its_dimensions() {
    let rt = RenderTarget::new((800, 600), (20, 20), Box::new(0u8));
    assert_eq!(rt.dimensions(), (800, 600));
}

#[test]
fn file_names_resolve_to_themselves() {
    assert_eq!(resolve_filename("scenes/box.pbrt"), "scenes/box.pbrt");
}

#[test]
fn extensions_are_compared_exactly() {
    assert!(has_extension("textures/wood.png", "png"));
    assert!(has_extension("a.b/c.tga", "tga"));
    assert!(!has_extension("a.b/c", "b"));
    assert!(!has_extension("textures/wood.png", "PNG"));
    assert!(!has_extension(".png", "png"));
    assert!(!has_extension("archive.tar.gz", "tar"));
    assert!(has_extension("archive.tar.gz", "gz"));
}

#[test]
fn extension_matching_on_given_extensions() {
    assert!(extension_matches(Some("png".to_string()), "png"));
    assert!(!extension_matches(Some("png".to_string()), "tga"));
    assert!(!extension_matches(None, "png"));
}

#[test]
fn integrators_are_built_as_their_variants() {
    assert!(matches!(Path::new(3, 8), Integrators::Path(_)));
    assert!(matches!(Whitted::new_integrator(8), Integrators::Whitted(_)));
}

#[test]
fn constant_texture_is_built() {
    let _t = ConstantTexture::new(0.5f32);
}

#[test]
fn constant_texture_gives_its_value_everywhere() {
    let t = pbr::texture::ConstantTexture::new(7u32);
    assert_eq!(t.evaluate(&()), 7);
    assert_eq!(t.evaluate(&(1.5f32, -2.0f32)), 7);
}
