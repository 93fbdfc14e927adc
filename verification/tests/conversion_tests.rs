use klv_parser::parser::{four_u8s_to_u32, three_u8s_to_u32, two_u8s_to_u32, u8s_to_u32};

#[test]
fn test_two_bytes_to_u32() {
    //                       8          7         6         5         4        3        2        1
    // -------------------------------------------------------------------------------------------
    // 16 bytes:         32768      16384      8192      4096      2048     1024      512      256
    // 124:                  0          1         1         1         1        1        0        0
    //
    // 8 bytes:            128         64        32        16         8        4        2        1
    // 45:                   0          0         1         0         1        1        0        1
    let expected_num: u32 = 31789;

    let array: [u8; 2] = [45, 124];

    let actual_num: u32 = two_u8s_to_u32(&array);

    assert_eq!(actual_num, expected_num);
}

#[test]
fn test_three_bytes_to_u32() {
    //                       8          7         6         5         4        3        2        1
    // -------------------------------------------------------------------------------------------
    // 24 bytes:       8388608    4194304   2097152   1048576    524288   262144   131072    65536
    // 101:                  0          1         1         0         0        1        0        1
    //
    // 16 bytes:         32768      16384      8192      4096      2048     1024      512      256
    // 124:                  0          1         1         1         1        1        0        0
    //
    // 8 bytes:            128         64        32        16         8        4        2        1
    // 45:                   0          0         1         0         1        1        0        1
    let expected_num: u32 = 6650925;

    let array: [u8; 3] = [45, 124, 101];
    let actual_num: u32 = three_u8s_to_u32(&array);

    assert_eq!(actual_num, expected_num);
}

#[test]
fn test_four_bytes_to_u32() {
    //                       8          7         6         5         4        3        2        1
    // -------------------------------------------------------------------------------------------
    // 32 bytes:    2147483648 1073741824 536870912 268435456 134217728 67108864 33554432 16777216
    // 12:                   0          0         0         0         1        1        0        0
    //
    // 24 bytes:       8388608    4194304   2097152   1048576    524288   262144   131072    65536
    // 101:                  0          1         1         0         0        1        0        1
    //
    // 16 bytes:         32768      16384      8192      4096      2048     1024      512      256
    // 124:                  0          1         1         1         1        1        0        0
    //
    // 8 bytes:            128         64        32        16         8        4        2        1
    // 45:                   0          0         1         0         1        1        0        1
    let expected_num: u32 = 207977517;

    let array: [u8; 4] = [45, 124, 101, 12];
    let actual_num: u32 = four_u8s_to_u32(&array);

    assert_eq!(actual_num, expected_num);
}

#[test]
fn dispatch_matches_each_width() {
    assert_eq!(u8s_to_u32(&[45, 124]), 31789);
    assert_eq!(u8s_to_u32(&[45, 124, 101]), 6650925);
    assert_eq!(u8s_to_u32(&[45, 124, 101, 12]), 207977517);
}
