use starframe::animation::activate_animation;

fn names() -> Vec<Option<String>> {
    vec![Some("idle".to_string()), None, Some("run".to_string()), Some("run".to_string())]
}

/// The first animation with the name becomes active.
#[test]
fn activate_existing_animation() {
    let mut active = None;
    assert!(activate_animation(&names(), &mut active, &"run".to_string()).is_ok());
    assert_eq!(active, Some(2));
    assert!(activate_animation(&names(), &mut active, &"idle".to_string()).is_ok());
    assert_eq!(active, Some(0));
}

/// An unknown name is an error and keeps the active animation.
#[test]
fn activate_missing_animation() {
    let mut active = Some(2);
    assert!(activate_animation(&names(), &mut active, &"jump".to_string()).is_err());
    assert_eq!(active, Some(2));
    let mut none = None;
    assert!(activate_animation(&Vec::new(), &mut none, &"idle".to_string()).is_err());
    assert_eq!(none, None);
}
