use legion::asset_registry::{
    AccessGuard, AssetRegistryOptions, AssetStates, DeviceSpec, LoaderResult, ResourceId, ResourceLoadEvent,
};
use legion::build_device::{build_failure_message, build_outcome, BuildDevice};
use legion::multitext_resource::{MultiTextResource, MultiTextResourceProc};
use legion::resource_type::{
    HexError, ParseResourceTypeError, ResourceType, ResourceTypeEntry, ResourceTypeRegistry,
};
use legion::transaction::{clone_entity_name, name_error_is_fatal, CloneResourceOperation, NameFieldError, ResourceTypeAndId};
use legion::type_reflection::{
    BaseDescriptor, BoxDynDescriptor, PrimitiveDescriptor, StructDescriptor, TypeDefinition,
};
use std::str::FromStr;

#[test]
fn resource_type_from_hex_text() {
    assert_eq!(ResourceType::parse("ff").unwrap().raw(), 255);
    assert_eq!(ResourceType::parse("+1A").unwrap().raw(), 26);
    assert_eq!(ResourceType::from_str("00000000000000ab").unwrap().raw(), 0xab);
    assert_eq!(ResourceType::parse("ffffffffffffffff").unwrap().raw(), u64::MAX);
    assert_eq!(ResourceType::parse(""), Err(ParseResourceTypeError::Empty));
    assert_eq!(ResourceType::parse("+"), Err(ParseResourceTypeError::InvalidDigit));
    assert_eq!(ResourceType::parse("-1"), Err(ParseResourceTypeError::InvalidDigit));
    assert_eq!(ResourceType::parse("12g"), Err(ParseResourceTypeError::InvalidDigit));
    assert_eq!(ResourceType::parse("0"), Err(ParseResourceTypeError::InvalidDigit));
    assert_eq!(ResourceType::parse("10000000000000000"), Err(ParseResourceTypeError::PosOverflow));
}

#[test]
fn resource_type_parse_agrees_with_std() {
    for text in ["1", "abc", "+7f", "DEADbeef", "ffffffffffffffff", "1ffffffffffffffff", "", "+", "x", "-3"] {
        let expected = match u64::from_str_radix(text, 16) {
            Ok(0) => Err(ParseResourceTypeError::InvalidDigit),
            Ok(v) => Ok(v),
            Err(e) => Err(match e.kind() {
                std::num::IntErrorKind::Empty => ParseResourceTypeError::Empty,
                std::num::IntErrorKind::PosOverflow => ParseResourceTypeError::PosOverflow,
                _ => ParseResourceTypeError::InvalidDigit,
            }),
        };
        assert_eq!(ResourceType::parse(text).map(|t| t.raw()), expected, "{}", text);
    }
}

#[test]
fn resource_type_hex_roundtrip() {
    let t = ResourceType::from_raw(0x0123_4567_89ab_cdef);
    let text = t.to_hex_string();
    assert_eq!(text, "0123456789abcdef");
    assert_eq!(text, format!("{:016x}", t.raw()));
    assert_eq!(ResourceType::from_hex(text.as_bytes()), Ok(t));
    assert_eq!(ResourceType::parse(&text), Ok(t));
    assert_eq!(ResourceType::from_str(&text), Ok(t));
    assert_eq!(ResourceType::from_raw(1).to_hex_string(), "0000000000000001");
    assert_eq!(ResourceType::from_raw(u64::MAX).to_hex_string(), format!("{:016x}", u64::MAX));
}

#[test]
fn resource_type_hex_errors() {
    assert_eq!(ResourceType::from_hex(b"123"), Err(HexError::OddLength));
    assert_eq!(
        ResourceType::from_hex(b"12zz"),
        Err(HexError::InvalidHexCharacter { c: 'z', index: 2 })
    );
    assert_eq!(ResourceType::from_hex(b"00000000000000FF").unwrap().raw(), 255);
}

#[test]
fn resource_type_from_name_is_its_hash() {
    let name = b"multitext_resource";
    let expected = xxhash_rust::const_xxh3::xxh3_64(name);
    assert_ne!(expected, 0);
    assert_eq!(ResourceType::new(name).raw(), expected);
    assert_eq!(ResourceType::try_new(name).map(|t| t.raw()), Some(expected));
    assert_ne!(ResourceType::new(b"a").raw(), ResourceType::new(b"b").raw());
}

#[test]
fn registry_names_types() {
    let mut registry: ResourceTypeRegistry<u32> = ResourceTypeRegistry::new();
    let a = ResourceType::from_raw(1);
    let b = ResourceType::from_raw(2);
    assert_eq!(a.as_pretty(&registry), "unknown");
    registry.register_type(a, ResourceTypeEntry { name: "mesh".to_string(), new_instance: 10 });
    registry.register_type(b, ResourceTypeEntry { name: "texture".to_string(), new_instance: 20 });
    registry.register_type(a, ResourceTypeEntry { name: "model".to_string(), new_instance: 30 });
    assert_eq!(a.as_pretty(&registry), "model");
    assert_eq!(b.as_pretty(&registry), "texture");
    assert_eq!(*a.new_instance(&registry), 30);
    let mut types = registry.get_resource_types();
    types.sort();
    assert_eq!(types, vec![(a, "model".to_string()), (b, "texture".to_string())]);
}

#[test]
fn access_guard_counts_readers_and_writer() {
    let mut guard = AccessGuard::new();
    guard.acquire_read();
    guard.acquire_read();
    assert_eq!(guard.value(), 2);
    guard.release_read();
    guard.release_read();
    guard.acquire_write();
    assert_eq!(guard.value(), -1);
    guard.release_write();
    assert_eq!(guard.value(), 0);
}

#[test]
fn registry_options_collect_devices_and_loaders() {
    let t = ResourceType::from_raw(3);
    let u = ResourceType::from_raw(4);
    let options = AssetRegistryOptions::new()
        .add_device_dir("assets".to_string())
        .add_loader(t)
        .add_device_dir("more".to_string())
        .add_loader(t);
    assert_eq!(
        options.device_list(),
        &vec![DeviceSpec::Dir("assets".to_string()), DeviceSpec::Dir("more".to_string())]
    );
    assert!(options.has_loader(t));
    assert!(!options.has_loader(u));
}

#[test]
fn update_applies_results_in_order() {
    let kind = ResourceType::from_raw(9);
    let a = ResourceId::new(kind, 1);
    let b = ResourceId::new(kind, 2);
    let c = ResourceId::new(kind, 3);
    let mut states = AssetStates::new();
    let mut guard = AccessGuard::new();
    let events = states.update(&mut guard, &vec![], &vec![LoaderResult::Loaded(a), LoaderResult::Loaded(b), LoaderResult::LoadError(c)]);
    assert_eq!(
        events,
        vec![ResourceLoadEvent::Loaded(a), ResourceLoadEvent::Loaded(b), ResourceLoadEvent::LoadError(c)]
    );
    assert!(states.is_loaded(a) && states.is_loaded(b) && !states.is_loaded(c));
    assert!(states.is_err(c));
    assert_eq!(guard.value(), 0);
    let events = states.update(&mut guard, &vec![a, c], &vec![LoaderResult::Unloaded(b), LoaderResult::Loaded(b)]);
    assert_eq!(events, vec![ResourceLoadEvent::Unloaded(b), ResourceLoadEvent::Loaded(b)]);
    assert!(!states.is_loaded(a));
    assert!(states.is_loaded(b));
    assert!(!states.is_err(c));
}

#[test]
fn clone_operation_keeps_ids() {
    let kind = ResourceType::from_raw(5);
    let src = ResourceTypeAndId { kind, id: 1 };
    let dst = ResourceTypeAndId { kind, id: 2 };
    let op = CloneResourceOperation::new(src, dst, None);
    assert_eq!(op.source_resource_id(), src);
    assert_eq!(op.clone_resource_id(), dst);
    assert_eq!(op.target_parent_id(), None);
    assert_eq!(op.rollback_resource_id(), dst);
    assert!(!name_error_is_fatal(NameFieldError::FieldNotFoundOnStruct));
    assert!(!name_error_is_fatal(NameFieldError::ArrayKeyNotFound));
    assert!(name_error_is_fatal(NameFieldError::Other));
}

#[test]
fn multitext_processor_makes_empty_resource() {
    let mut proc = MultiTextResourceProc {};
    let r: MultiTextResource = proc.new_resource();
    assert!(r.text_list.is_empty());
    assert!(proc.extract_build_dependencies(&r).is_empty());
}

#[test]
fn type_definition_names() {
    let prim = PrimitiveDescriptor { base_descriptor: BaseDescriptor { name: "u32".to_string() } };
    let st = StructDescriptor { base_descriptor: BaseDescriptor { name: "Transform".to_string() } };
    let dynd = BoxDynDescriptor { name: "Box<dyn Component>".to_string() };
    assert_eq!(TypeDefinition::Primitive(&prim).get_type_name(), "u32");
    assert_eq!(TypeDefinition::Struct(&st).get_type_name(), "Transform");
    assert_eq!(TypeDefinition::BoxDyn(&dynd).get_type_name(), "Box<dyn Component>");
    assert_eq!(TypeDefinition::Invalid.get_type_name(), "None");
}

#[test]
fn build_command_arguments() {
    let device = BuildDevice::new("databuild".to_string(), "out.db".to_string(), "proj".to_string(), true);
    assert!(device.rebuilds_on_load());
    assert_eq!(device.databuild_bin(), "databuild");
    assert_eq!(
        device.build_command_args(&"0001|0002".to_string()),
        vec!["compile", "0001|0002", "--rt", "--target=game", "--platform=windows", "--locale=en", "--output=out.db", "--project=proj"]
    );
    assert_eq!(build_failure_message(&"boom".to_string()), "Data Build Failed: 'boom'");
    assert_eq!(build_outcome(true, vec![1], &String::new()), Ok(vec![1]));
    assert_eq!(build_outcome(false, vec![1], &"x".to_string()), Err("Data Build Failed: 'x'".to_string()));
}

#[test]
fn clone_takes_last_path_segment_as_name() {
    assert_eq!(clone_entity_name(&"/!1234/scene/light_3".to_string()), "light_3");
    assert_eq!(clone_entity_name(&"root".to_string()), "root");
    assert_eq!(clone_entity_name(&"a/b/".to_string()), "");
    assert_eq!(clone_entity_name(&String::new()), "");
}

#[test]
fn load_error_sync() {
    let internal_id = ResourceId::new(ResourceType::from_raw(0x7e57), 7);
    let mut states = AssetStates::new();
    let mut guard = AccessGuard::new();
    {
        // The synchronous load of a resource missing from the asset file
        // ends with the loader reporting the failure.
        let events = states.update(&mut guard, &vec![], &vec![LoaderResult::LoadError(internal_id)]);
        assert_eq!(events, vec![ResourceLoadEvent::LoadError(internal_id)]);
        assert!(!states.is_loaded(internal_id));
        assert!(states.is_err(internal_id));
    }
    // The handle is dropped.
    states.update(&mut guard, &vec![internal_id], &vec![]);
    assert!(!states.is_loaded(internal_id));
}
