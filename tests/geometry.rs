use excalidocker::geometry::{
    find_additional_width, get_alignment_factor_xy, get_connecting_arrow_points, get_connecting_arrow_xy,
    get_container_port_text_xy, get_container_xy, get_host_port_arrow_points, get_host_port_arrow_xy, margins,
};

#[test]
fn margins_per_mode() {
    assert_eq!(margins("horizontal"), (60, 0, 1, 0));
    assert_eq!(margins("vertical"), (0, 60, 0, 1));
    assert_eq!(margins("stepped"), (60, 60, 1, 0));
    assert_eq!(margins("diagonal"), (60, 60, 1, 0));
}

#[test]
fn alignment_factor_values() {
    assert_eq!(get_alignment_factor_xy("vertical", 0, 1, 180, 20), (0, 40));
    assert_eq!(get_alignment_factor_xy("stepped", 1, 0, 180, 20), (180, 0));
    assert_eq!(get_alignment_factor_xy("horizontal", 1, 1, 140, 20), (140, 20));
}

#[test]
fn port_offsets() {
    assert_eq!(get_container_port_text_xy("vertical", &60, &140, 2), (160, 75));
    assert_eq!(get_container_port_text_xy("stepped", &60, &140, 2), (180, 80));
    assert_eq!(get_container_xy("vertical", &180, &20, 0), (280, -35));
    assert_eq!(get_container_xy("stepped", &180, &20, 2), (160, 160));
    assert_eq!(get_host_port_arrow_xy("vertical", &60, &140, &180), (180, 30));
    assert_eq!(get_host_port_arrow_xy("horizontal", &60, &140, &180), (70, 60));
}

#[test]
fn port_arrow_points() {
    assert_eq!(get_host_port_arrow_points("vertical", 1), vec![[0, 0], [101, 45]]);
    assert_eq!(get_host_port_arrow_points("stepped", 1), vec![[0, 0], [45, 101]]);
}

#[test]
fn connector_offsets_and_points() {
    assert_eq!(get_connecting_arrow_xy("vertical", 40), (0, 20));
    assert_eq!(get_connecting_arrow_xy("stepped", 40), (40, 0));
    assert_eq!(
        get_connecting_arrow_points("stepped", &200, &60, &0, &0, &60, &140, &20, &20, -60, 0),
        vec![[0, 0], [0, -120], [-100, -120], [-100, -60]]
    );
    assert_eq!(
        get_connecting_arrow_points("vertical", &0, &120, &0, &0, &60, &140, &40, &20, -120, 1),
        vec![[0, 0], [-80, 0], [-80, -100], [-1, -100]]
    );
}

#[test]
fn width_expansion_threshold() {
    // at the tier's limit no width is added, one character more adds a multiple of the grid
    assert_eq!(find_additional_width("abcdefghijklmn", &20, &16), 0);
    assert_eq!(find_additional_width("abcdefghijklmno", &20, &16), 60);
    assert_eq!(find_additional_width("abcdefghi", &20, &20), 0);
    assert_eq!(find_additional_width("abcdefghij", &20, &20), 60);
    assert_eq!(find_additional_width("abcde", &20, &28), 0);
    assert_eq!(find_additional_width("abcdef", &20, &28), 80);
    assert_eq!(find_additional_width("ab", &20, &36), 0);
    assert_eq!(find_additional_width("abc", &20, &36), 20);
    assert_eq!(find_additional_width("", &20, &16), 0);
}

#[test]
fn width_fallback_tier() {
    assert_eq!(find_additional_width("a", &20, &99), 0);
    assert_eq!(find_additional_width("ab", &20, &99), 0);
    assert_eq!(find_additional_width("abcd", &20, &99), 40);
}
