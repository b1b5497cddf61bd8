use intelhexlib::error::{IntelHexError, IntelHexErrorKind};
use intelhexlib::IntelHex;

#[test]
fn intelhex_test_set_max_payload_size_valid() {
    // Arrange
    let mut ih = IntelHex::new();
    let new_payload_length = 2;

    // Act
    let res = ih.set_max_payload_size(new_payload_length);

    // Assert
    assert!(res.is_ok());
    assert_eq!(ih.max_payload_size, new_payload_length as usize);
}

#[test]
fn intelhex_test_set_max_payload_size_invalid() {
    // Arrange
    let mut ih = IntelHex::new();
    let new_payload_length = 0;
    let default_payload_length = ih.max_payload_size;

    // Act
    let res = ih.set_max_payload_size(new_payload_length);

    // Assert
    assert!(res.is_err());
    assert_eq!(ih.max_payload_size, default_payload_length);
}

#[test]
fn intelhex_test_get_byte_valid() {
    // Arrange
    let mut ih = IntelHex::new();
    let addr = 0x1234;
    let value = 0xFF;
    ih.insert_data(addr, &[value]).unwrap();

    // Act
    let byte = ih.get_byte(addr);

    // Assert
    assert_eq!(byte, Some(value));
}

#[test]
fn intelhex_test_get_byte_invalid() {
    // Arrange
    let mut ih = IntelHex::new();
    let addr = 0x1234;
    let value = 0xFF;
    ih.insert_data(addr, &[value]).unwrap();

    // Act
    let byte = ih.get_byte(addr - 1);

    // Assert
    assert!(byte.is_none());
}

#[test]
fn intelhex_test_get_buffer_slice_valid() {
    // Arrange
    let mut ih = IntelHex::new();

    let addr_start = 16;
    let length = 10;

    let mut addr_vec = Vec::with_capacity(length);
    let mut expected_res_vec = Vec::with_capacity(length);

    for addr in addr_start..=addr_start + length {
        addr_vec.push(addr); // construct addr vector
        ih.insert_data(addr, &[addr as u8]).unwrap(); // insert the byte at its address
        expected_res_vec.push(addr as u8); // push the value into expected result vec
    }

    // Act
    let res_vec: Option<Vec<u8>> = ih.get_buffer_slice(&addr_vec);

    // Assert
    assert_eq!(res_vec, Some(expected_res_vec));
}

#[test]
fn intelhex_test_get_buffer_slice_with_gaps() {
    // Arrange
    let mut ih = IntelHex::new();

    let addr_start = 16;
    let length = 10;

    let mut addr_vec = Vec::with_capacity(length);
    let mut expected_res_vec = Vec::with_capacity(length);

    for addr in addr_start..=addr_start + length {
        addr_vec.push(addr * 2); // construct addr vector
        ih.insert_data(addr * 2, &[addr as u8]).unwrap(); // insert the byte at its address
        expected_res_vec.push(addr as u8); // push the value into expected result vec
    }

    // Act
    let res_vec: Option<Vec<u8>> = ih.get_buffer_slice(&addr_vec);

    // Assert
    assert_eq!(res_vec, Some(expected_res_vec));
}

#[test]
fn intelhex_test_get_buffer_slice_invalid() {
    // Arrange
    let mut ih = IntelHex::new();

    let addr_start = 16;
    let length = 10;

    let mut addr_vec = Vec::with_capacity(length);

    for addr in addr_start..=addr_start + length {
        addr_vec.push(addr); // construct addr vector
        if addr != addr_start + length {
            // leave the last addr unmapped
            ih.insert_data(addr, &[addr as u8]).unwrap();
        }
    }

    // Act
    let res_vec: Option<Vec<u8>> = ih.get_buffer_slice(&addr_vec);

    // Assert
    assert_eq!(res_vec, None);
}

#[test]
fn intelhex_test_update_byte_valid() {
    // Arrange
    let mut ih = IntelHex::new();
    let addr = 0x1234;
    let value = 0xFF;
    ih.insert_data(addr, &[value]).unwrap();

    // Act
    let res = ih.update_byte(addr, value - 1);

    // Assert
    assert!(res.is_ok());
    assert_eq!(ih.read_byte(addr).unwrap_or(0), value - 1);
}

#[test]
fn intelhex_test_update_byte_invalid() {
    // Arrange
    let mut ih = IntelHex::new();
    let addr = 0x1234;
    let value = 0xFF;
    ih.insert_data(addr, &[value]).unwrap();

    // Act
    let res = ih.update_byte(addr - 1, value - 1);

    // Assert
    assert!(res.is_err());
}

#[test]
fn intelhex_test_update_buffer_slice_valid() {
    // Arrange
    let mut ih = IntelHex::new();

    let addr_start = 16;
    let length = 10;

    let mut update_map: Vec<(usize, u8)> = Vec::with_capacity(length);

    for addr in addr_start..=addr_start + length {
        update_map.push((addr, (addr - 1) as u8)); // construct vector with addr & new value
        ih.insert_data(addr, &[addr as u8]).unwrap(); // insert the byte at its address
    }

    // Act
    let res = ih.update_buffer_slice(&update_map);

    // Assert
    assert!(res.is_ok());
    for addr in addr_start..=addr_start + length {
        assert_eq!(ih.read_byte(addr).unwrap_or(0), (addr - 1) as u8);
    }
}

#[test]
fn intelhex_test_update_buffer_slice_with_gap() {
    // Arrange
    let mut ih = IntelHex::new();

    let addr_start = 16;
    let length = 10;

    let mut update_map: Vec<(usize, u8)> = Vec::with_capacity(length);

    for addr in addr_start..=addr_start + length {
        update_map.push((addr * 2, (addr - 1) as u8)); // construct vector with addr & new value
        ih.insert_data(addr * 2, &[addr as u8]).unwrap(); // insert the byte at its address
    }

    // Act
    let res = ih.update_buffer_slice(&update_map);

    // Assert
    assert!(res.is_ok());
    for addr in addr_start..=addr_start + length {
        assert_eq!(ih.read_byte(addr * 2).unwrap_or(0), (addr - 1) as u8);
    }
}

#[test]
fn intelhex_test_update_buffer_slice_invalid() {
    // Arrange
    let mut ih = IntelHex::new();

    let addr_start = 16;
    let length = 10;

    let mut update_map: Vec<(usize, u8)> = Vec::with_capacity(length);

    for addr in addr_start..=addr_start + length {
        update_map.push((addr, (addr - 1) as u8)); // construct vector with addr & new value
        if addr != addr_start + length {
            // leave the last addr unmapped
            ih.insert_data(addr, &[addr as u8]).unwrap();
        }
    }

    // Act
    let res = ih.update_buffer_slice(&update_map);

    // Assert
    assert!(res.is_err());
}

#[test]
fn intelhex_test_get_min_and_max_addr_valid() {
    // Arrange
    let mut ih = IntelHex::new();

    let addr_start = 10;
    let length = 10;

    for addr in addr_start..=addr_start + length {
        ih.insert_data(addr, &[0]).unwrap(); // insert the byte at its address
    }

    // Act
    let min_addr = ih.get_min_addr();
    let max_addr = ih.get_max_addr();

    // Assert
    assert_eq!(min_addr, Some(addr_start));
    assert_eq!(max_addr, Some(addr_start + length));

    // Arrange
    ih.clear();
    ih.insert_data(0, &[0]).unwrap();

    // Act
    let min_addr = ih.get_min_addr();
    let max_addr = ih.get_max_addr();

    // Assert
    assert_eq!(min_addr, Some(0));
    assert_eq!(max_addr, Some(0));
}

#[test]
fn intelhex_test_get_min_and_max_addr_invalid() {
    // Arrange
    let ih = IntelHex::new();

    // Act
    let min_addr = ih.get_min_addr();
    let max_addr = ih.get_max_addr();

    // Assert
    assert!(min_addr.is_none());
    assert!(max_addr.is_none());
}

#[test]
fn test_relocate_valid() {
    // Arrange
    let mut ih = IntelHex::new();
    ih.insert_data(0xFFFF, &[0xFF]).unwrap();

    // Act
    let res = ih.relocate(0x0);

    // Assert
    assert!(res.is_ok());
    assert_eq!(ih.read_byte(0x0), Some(0xFF));
}

#[test]
fn test_relocate_invalid() {
    // Arrange
    let mut ih = IntelHex::new();
    ih.insert_data(0x0000, &[0xFF]).unwrap(); // min addr
    ih.insert_data(0xFFFF, &[0xFF]).unwrap(); // max addr

    // Act
    let res = ih.relocate(u32::MAX as usize);

    // Assert
    assert_eq!(
        res,
        Err(IntelHexError::UpdateError(IntelHexErrorKind::RelocateAddressOverflow(0xFFFF_0000)))
    );
}
