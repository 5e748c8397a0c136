//! Tests of the configuration getters.

use sudoku_core::utility::{
    get_gateway_address, get_ip_address, get_ssid, get_subnet_mask, get_wifi_password,
};

#[test]
fn ssid_comes_from_the_network_entry() {
    assert_eq!(get_ssid(), "HomeNetwork");
}

#[test]
fn password_comes_from_the_password_entry() {
    assert_eq!(get_wifi_password(), "ChangeMe123");
}

#[test]
fn subnet_mask_is_parsed_as_a_prefix_length() {
    assert_eq!(get_subnet_mask(), 24);
}

#[test]
fn ip_address_is_parsed_from_four_octets() {
    assert_eq!(get_ip_address(), [192, 168, 1, 115]);
}

#[test]
fn gateway_address_is_parsed_from_four_octets() {
    assert_eq!(get_gateway_address(), [192, 168, 1, 1]);
}
