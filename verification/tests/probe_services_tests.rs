use synapse::probe::{
    alt_names_shown, extract_title, format_probe, http_request, parse_cert, parse_http,
    summarize_cert, tls_result, tls_version_label, AltName, HttpInfo, ProbeResult, TlsInfo, TlsVersion,
};
use synapse::services::parse_services;

/// A self-signed Ed25519 certificate for www.example.com, valid until 2023-06-27.
const ED25519_CERT: &[u8] = &[
    0x30, 0x82, 0x01, 0x08, 0x30, 0x81, 0xbb, 0x02, 0x14, 0x77, 0xe5, 0xf4, 0xc0, 0x34, 0x88, 0xa1,
    0x22, 0x6c, 0xf5, 0xcd, 0x45, 0xf3, 0xcd, 0xf0, 0x49, 0x91, 0xf8, 0x15, 0x43, 0x30, 0x05, 0x06,
    0x03, 0x2b, 0x65, 0x70, 0x30, 0x27, 0x31, 0x0b, 0x30, 0x09, 0x06, 0x03, 0x55, 0x04, 0x06, 0x13,
    0x02, 0x44, 0x45, 0x31, 0x18, 0x30, 0x16, 0x06, 0x03, 0x55, 0x04, 0x03, 0x0c, 0x0f, 0x77, 0x77,
    0x77, 0x2e, 0x65, 0x78, 0x61, 0x6d, 0x70, 0x6c, 0x65, 0x2e, 0x63, 0x6f, 0x6d, 0x30, 0x1e, 0x17,
    0x0d, 0x32, 0x31, 0x30, 0x37, 0x32, 0x37, 0x31, 0x32, 0x33, 0x37, 0x31, 0x34, 0x5a, 0x17, 0x0d,
    0x32, 0x33, 0x30, 0x36, 0x32, 0x37, 0x31, 0x32, 0x33, 0x37, 0x31, 0x34, 0x5a, 0x30, 0x27, 0x31,
    0x0b, 0x30, 0x09, 0x06, 0x03, 0x55, 0x04, 0x06, 0x13, 0x02, 0x44, 0x45, 0x31, 0x18, 0x30, 0x16,
    0x06, 0x03, 0x55, 0x04, 0x03, 0x0c, 0x0f, 0x77, 0x77, 0x77, 0x2e, 0x65, 0x78, 0x61, 0x6d, 0x70,
    0x6c, 0x65, 0x2e, 0x63, 0x6f, 0x6d, 0x30, 0x2a, 0x30, 0x05, 0x06, 0x03, 0x2b, 0x65, 0x70, 0x03,
    0x21, 0x00, 0x3e, 0xa4, 0x05, 0xd2, 0xef, 0x19, 0xf5, 0xe0, 0xab, 0xf3, 0x3e, 0x4d, 0xf5, 0x4e,
    0xe5, 0x1d, 0x05, 0x44, 0x79, 0x3d, 0x98, 0xe2, 0x67, 0x25, 0x37, 0xf4, 0xff, 0xca, 0xf8, 0x60,
    0x98, 0x4c, 0x30, 0x05, 0x06, 0x03, 0x2b, 0x65, 0x70, 0x03, 0x41, 0x00, 0x20, 0xdb, 0x7a, 0xe6,
    0xfa, 0xc2, 0x88, 0xe9, 0x59, 0xf4, 0x6a, 0xca, 0xb2, 0xd7, 0x2c, 0x48, 0x0d, 0x55, 0xbc, 0x0f,
    0x27, 0x57, 0x32, 0x52, 0x68, 0x3f, 0xe8, 0x01, 0xaa, 0x9e, 0x83, 0xd2, 0x23, 0xc3, 0xb4, 0x8c,
    0x17, 0x93, 0x70, 0x6b, 0xde, 0x0d, 0xc4, 0xaa, 0x36, 0x71, 0xc8, 0x83, 0x83, 0xb1, 0xe4, 0x1a,
    0x6e, 0x52, 0x8b, 0xd6, 0xbc, 0x02, 0xa6, 0x26, 0xea, 0x8d, 0xd5, 0x02,
];

/// A self-signed certificate for secure.example.com whose alternative names mix
/// e-mail, URI, IP, directory, DNS, registered-ID and other names.
const MIXED_SAN_CERT: &[u8] = &[
    0x30, 0x82, 0x06, 0x09, 0x30, 0x82, 0x03, 0xf1, 0xa0, 0x03, 0x02, 0x01, 0x02, 0x02, 0x09, 0x00,
    0xa2, 0x74, 0x6f, 0xe6, 0x9c, 0xc4, 0x05, 0x46, 0x30, 0x0d, 0x06, 0x09, 0x2a, 0x86, 0x48, 0x86,
    0xf7, 0x0d, 0x01, 0x01, 0x0b, 0x05, 0x00, 0x30, 0x1d, 0x31, 0x1b, 0x30, 0x19, 0x06, 0x03, 0x55,
    0x04, 0x03, 0x0c, 0x12, 0x73, 0x65, 0x63, 0x75, 0x72, 0x65, 0x2e, 0x65, 0x78, 0x61, 0x6d, 0x70,
    0x6c, 0x65, 0x2e, 0x63, 0x6f, 0x6d, 0x30, 0x1e, 0x17, 0x0d, 0x31, 0x39, 0x30, 0x39, 0x31, 0x39,
    0x30, 0x39, 0x33, 0x36, 0x32, 0x34, 0x5a, 0x17, 0x0d, 0x32, 0x30, 0x30, 0x39, 0x31, 0x38, 0x30,
    0x39, 0x33, 0x36, 0x32, 0x34, 0x5a, 0x30, 0x1d, 0x31, 0x1b, 0x30, 0x19, 0x06, 0x03, 0x55, 0x04,
    0x03, 0x0c, 0x12, 0x73, 0x65, 0x63, 0x75, 0x72, 0x65, 0x2e, 0x65, 0x78, 0x61, 0x6d, 0x70, 0x6c,
    0x65, 0x2e, 0x63, 0x6f, 0x6d, 0x30, 0x82, 0x02, 0x22, 0x30, 0x0d, 0x06, 0x09, 0x2a, 0x86, 0x48,
    0x86, 0xf7, 0x0d, 0x01, 0x01, 0x01, 0x05, 0x00, 0x03, 0x82, 0x02, 0x0f, 0x00, 0x30, 0x82, 0x02,
    0x0a, 0x02, 0x82, 0x02, 0x01, 0x00, 0xaa, 0x1a, 0xdb, 0xaa, 0x20, 0x6a, 0xf7, 0xcf, 0xbc, 0xb8,
    0x5b, 0x23, 0xf9, 0x44, 0x4a, 0x5c, 0xde, 0x5d, 0x1a, 0xe8, 0xab, 0x16, 0x77, 0xa2, 0xd0, 0xbf,
    0xdf, 0xe4, 0x71, 0x59, 0xdf, 0x04, 0xcb, 0x5d, 0xbc, 0xfd, 0x1b, 0x87, 0xc5, 0x06, 0x98, 0x9e,
    0x93, 0x67, 0x0e, 0x35, 0xa5, 0x9a, 0xf2, 0x7e, 0x51, 0xaf, 0x24, 0xc1, 0xda, 0x0d, 0x25, 0xc3,
    0xc3, 0xb2, 0xd8, 0xb0, 0xf3, 0x8e, 0x14, 0x85, 0x78, 0x85, 0x59, 0x9a, 0x53, 0xed, 0xe9, 0xff,
    0x6b, 0x12, 0xab, 0xc7, 0xcd, 0xe3, 0xb2, 0xcc, 0x56, 0x16, 0xf4, 0xbc, 0x0b, 0x6e, 0x5b, 0xb9,
    0x78, 0xae, 0x5c, 0x58, 0x9f, 0x20, 0xac, 0xb3, 0xa8, 0x62, 0x94, 0xba, 0xed, 0xb8, 0x26, 0xa5,
    0x29, 0x64, 0xd5, 0xc6, 0x05, 0x01, 0xe7, 0x60, 0x4b, 0x1a, 0xca, 0x5f, 0xbe, 0x5f, 0x09, 0x76,
    0x4b, 0xc0, 0x86, 0x7a, 0xcd, 0xd2, 0x98, 0xb7, 0x57, 0x24, 0xd3, 0x17, 0xee, 0x23, 0x34, 0xdd,
    0x7d, 0x20, 0xd3, 0xe9, 0x54, 0x1c, 0x4b, 0xf2, 0x82, 0x7d, 0xb1, 0xf5, 0x08, 0x0a, 0x66, 0x58,
    0xf6, 0x00, 0x85, 0xbd, 0xae, 0x77, 0x9e, 0xe6, 0x56, 0xfe, 0xc8, 0x9f, 0x1e, 0x32, 0x52, 0x1c,
    0xf6, 0xfd, 0x7c, 0x41, 0x27, 0x9e, 0xe6, 0x40, 0x45, 0x67, 0x60, 0xd9, 0x36, 0xe0, 0x2c, 0x6a,
    0xb7, 0xdd, 0xb9, 0xea, 0xbb, 0x34, 0x26, 0x31, 0x03, 0x9a, 0xae, 0x12, 0x19, 0x73, 0x97, 0x22,
    0x8c, 0x1a, 0xa6, 0x75, 0xf9, 0xc1, 0x08, 0xf9, 0xe3, 0x16, 0xf5, 0xfd, 0x56, 0xdc, 0x86, 0xf9,
    0x34, 0x4f, 0x7a, 0xfb, 0x39, 0x0f, 0x74, 0x2f, 0x87, 0xd2, 0xc5, 0xf0, 0xc4, 0x5f, 0xa4, 0x46,
    0x2b, 0x3a, 0x43, 0x76, 0x10, 0xad, 0x3e, 0x46, 0x45, 0x48, 0xeb, 0x2e, 0x09, 0xa7, 0x9e, 0x75,
    0x3b, 0xe8, 0xc5, 0x69, 0x10, 0x21, 0x53, 0x40, 0xb8, 0xaf, 0xc2, 0xe6, 0x8d, 0xf9, 0x66, 0x6c,
    0x12, 0x0c, 0x19, 0x41, 0x4b, 0x58, 0x1c, 0xb8, 0xe0, 0x7f, 0x17, 0xb8, 0x69, 0x19, 0xee, 0x6a,
    0x2c, 0x84, 0x6b, 0x80, 0x44, 0x59, 0xb0, 0x2e, 0xad, 0x3f, 0xd4, 0x0d, 0x6f, 0xb3, 0x74, 0xfd,
    0x2d, 0x11, 0x25, 0xef, 0x0e, 0x16, 0xec, 0x83, 0xfb, 0xf8, 0x2d, 0xc6, 0xf1, 0x1f, 0x8c, 0xc4,
    0x76, 0x97, 0x1a, 0x72, 0x65, 0x9e, 0x40, 0x06, 0xd0, 0x12, 0x74, 0xcf, 0xce, 0x27, 0x06, 0x63,
    0xd6, 0x5b, 0x0a, 0x25, 0xa3, 0xc1, 0xae, 0x70, 0xa4, 0x63, 0xc1, 0xf0, 0xf4, 0xb7, 0xcc, 0x4c,
    0x60, 0xb1, 0x73, 0xed, 0x2d, 0xb5, 0xa2, 0x7e, 0xe2, 0xf8, 0xa0, 0x57, 0xd2, 0x80, 0x98, 0x82,
    0x86, 0x90, 0x86, 0x9a, 0xfb, 0x8e, 0xbd, 0x22, 0x56, 0x86, 0xc6, 0x10, 0xe6, 0x1f, 0x92, 0x6d,
    0x0b, 0xb4, 0x47, 0x11, 0x18, 0x53, 0x8b, 0xa9, 0x42, 0x4d, 0xe7, 0x6b, 0xc6, 0x0e, 0x14, 0x4a,
    0x53, 0x4c, 0xc1, 0xcd, 0x5c, 0x69, 0x8b, 0x1b, 0xdf, 0xe6, 0xec, 0xed, 0x12, 0xa9, 0x7b, 0x74,
    0x52, 0xce, 0xc9, 0x6b, 0xf9, 0xac, 0x1d, 0xf0, 0x3d, 0x28, 0xa1, 0x8b, 0x2c, 0x95, 0xc1, 0xd2,
    0xbb, 0xcb, 0x76, 0xc2, 0xb6, 0x8e, 0xee, 0x51, 0x32, 0xaa, 0x75, 0xa6, 0x60, 0xc4, 0x6d, 0x3b,
    0xb4, 0x93, 0x7b, 0x10, 0x0a, 0x5c, 0x00, 0x2f, 0xec, 0xf3, 0x85, 0xed, 0x45, 0x56, 0xaf, 0x6f,
    0x54, 0xf8, 0x39, 0xe3, 0x92, 0xa5, 0xc2, 0x5e, 0xe7, 0x13, 0x26, 0xbd, 0xc0, 0xde, 0xb1, 0xe0,
    0xc6, 0xd2, 0x2b, 0x29, 0x10, 0xf0, 0x9c, 0x93, 0x90, 0x98, 0xa1, 0xf6, 0x45, 0xc2, 0xf6, 0xe7,
    0x6f, 0x91, 0x86, 0x01, 0x0d, 0x49, 0x58, 0x35, 0xa1, 0xdb, 0xfa, 0x6f, 0xdc, 0xfc, 0xc5, 0xa9,
    0x56, 0x35, 0x01, 0x1e, 0xdd, 0xbb, 0x02, 0x03, 0x01, 0x00, 0x01, 0xa3, 0x82, 0x01, 0x4a, 0x30,
    0x82, 0x01, 0x46, 0x30, 0x0f, 0x06, 0x03, 0x55, 0x1d, 0x13, 0x04, 0x08, 0x30, 0x06, 0x01, 0x01,
    0xff, 0x02, 0x01, 0x01, 0x30, 0x0c, 0x06, 0x03, 0x55, 0x1d, 0x0f, 0x04, 0x05, 0x03, 0x03, 0x07,
    0xb9, 0x80, 0x30, 0x2e, 0x06, 0x03, 0x55, 0x1d, 0x25, 0x04, 0x27, 0x30, 0x25, 0x06, 0x08, 0x2b,
    0x06, 0x01, 0x05, 0x05, 0x07, 0x03, 0x01, 0x06, 0x08, 0x2b, 0x06, 0x01, 0x05, 0x05, 0x07, 0x03,
    0x03, 0x06, 0x08, 0x2b, 0x06, 0x01, 0x05, 0x05, 0x07, 0x03, 0x08, 0x06, 0x05, 0x2a, 0x03, 0x04,
    0x00, 0x2a, 0x30, 0x0c, 0x06, 0x03, 0x55, 0x1d, 0x24, 0x04, 0x05, 0x30, 0x03, 0x81, 0x01, 0x0a,
    0x30, 0x0a, 0x06, 0x03, 0x55, 0x1d, 0x36, 0x04, 0x03, 0x02, 0x01, 0x02, 0x30, 0x81, 0xb6, 0x06,
    0x03, 0x55, 0x1d, 0x11, 0x04, 0x81, 0xae, 0x30, 0x81, 0xab, 0x81, 0x0f, 0x66, 0x6f, 0x6f, 0x40,
    0x65, 0x78, 0x61, 0x6d, 0x70, 0x6c, 0x65, 0x2e, 0x63, 0x6f, 0x6d, 0x86, 0x13, 0x68, 0x74, 0x74,
    0x70, 0x3a, 0x2f, 0x2f, 0x6d, 0x79, 0x2e, 0x75, 0x72, 0x6c, 0x2e, 0x68, 0x65, 0x72, 0x65, 0x2f,
    0x87, 0x04, 0xc0, 0xa8, 0x07, 0x01, 0xa4, 0x4d, 0x30, 0x4b, 0x31, 0x0b, 0x30, 0x09, 0x06, 0x03,
    0x55, 0x04, 0x06, 0x13, 0x02, 0x55, 0x4b, 0x31, 0x18, 0x30, 0x16, 0x06, 0x03, 0x55, 0x04, 0x0a,
    0x0c, 0x0f, 0x4d, 0x79, 0x20, 0x4f, 0x72, 0x67, 0x61, 0x6e, 0x69, 0x7a, 0x61, 0x74, 0x69, 0x6f,
    0x6e, 0x31, 0x10, 0x30, 0x0e, 0x06, 0x03, 0x55, 0x04, 0x0b, 0x0c, 0x07, 0x4d, 0x79, 0x20, 0x55,
    0x6e, 0x69, 0x74, 0x31, 0x10, 0x30, 0x0e, 0x06, 0x03, 0x55, 0x04, 0x03, 0x0c, 0x07, 0x4d, 0x79,
    0x20, 0x4e, 0x61, 0x6d, 0x65, 0x82, 0x09, 0x6c, 0x6f, 0x63, 0x61, 0x6c, 0x68, 0x6f, 0x73, 0x74,
    0x88, 0x03, 0x2a, 0x5a, 0x00, 0xa0, 0x1e, 0x06, 0x03, 0x2a, 0x03, 0x04, 0xa0, 0x17, 0x0c, 0x15,
    0x73, 0x6f, 0x6d, 0x65, 0x20, 0x6f, 0x74, 0x68, 0x65, 0x72, 0x20, 0x69, 0x64, 0x65, 0x6e, 0x74,
    0x69, 0x66, 0x69, 0x65, 0x72, 0x30, 0x22, 0x06, 0x03, 0x55, 0x1d, 0x1e, 0x04, 0x1b, 0x30, 0x19,
    0xa1, 0x17, 0x30, 0x0a, 0x87, 0x08, 0xc0, 0xa8, 0x00, 0x00, 0xff, 0xff, 0x00, 0x00, 0x30, 0x09,
    0x81, 0x07, 0x66, 0x6f, 0x6f, 0x2e, 0x63, 0x6f, 0x6d, 0x30, 0x0d, 0x06, 0x09, 0x2a, 0x86, 0x48,
    0x86, 0xf7, 0x0d, 0x01, 0x01, 0x0b, 0x05, 0x00, 0x03, 0x82, 0x02, 0x01, 0x00, 0x18, 0xb3, 0x81,
    0x5b, 0x33, 0xe0, 0x56, 0x46, 0x09, 0x36, 0xd4, 0x5e, 0x93, 0x59, 0xf2, 0x7b, 0x86, 0x3c, 0x90,
    0x49, 0x43, 0x9a, 0x77, 0x5f, 0x5a, 0x0f, 0x29, 0xa8, 0x38, 0x33, 0x34, 0x9a, 0xe2, 0x91, 0x42,
    0x87, 0xfa, 0xf0, 0xf2, 0xf0, 0xf2, 0xf8, 0x58, 0xd5, 0x01, 0x6b, 0x4e, 0xda, 0x17, 0x62, 0xa4,
    0x46, 0x6d, 0x3f, 0x3f, 0x28, 0xa3, 0x0d, 0x6c, 0x2d, 0xd0, 0x05, 0x9f, 0xe9, 0x6c, 0x87, 0x69,
    0xed, 0x77, 0x52, 0xcf, 0xde, 0x4f, 0x0b, 0x30, 0x6a, 0xd8, 0x47, 0x0f, 0x77, 0xa4, 0x12, 0x6f,
    0x3d, 0x4f, 0x45, 0xac, 0xef, 0xeb, 0x09, 0x65, 0x73, 0x37, 0xe5, 0xed, 0x8b, 0xb2, 0x10, 0x7e,
    0xba, 0x7e, 0xe0, 0x6c, 0xf3, 0x45, 0xf7, 0xc7, 0xbe, 0x88, 0x84, 0xa3, 0x0a, 0x73, 0x50, 0xc1,
    0x8a, 0x77, 0x22, 0xe4, 0x89, 0x28, 0xe2, 0x18, 0x0a, 0x55, 0xc3, 0x25, 0x67, 0xe4, 0xb2, 0xd4,
    0x58, 0xe1, 0xf7, 0x40, 0xab, 0x92, 0x5a, 0xdc, 0x6a, 0xc4, 0xa7, 0xbb, 0x25, 0xa5, 0x8c, 0xe5,
    0xef, 0xe3, 0x53, 0xdc, 0x11, 0x20, 0x8f, 0xcf, 0xdf, 0x2f, 0x5f, 0x1c, 0x6d, 0x94, 0x31, 0xf3,
    0x31, 0x31, 0xf6, 0x41, 0xb8, 0x93, 0x19, 0x90, 0xae, 0x11, 0x00, 0xd7, 0xff, 0xf1, 0x74, 0x05,
    0xa1, 0x8a, 0x96, 0xa8, 0x16, 0x0f, 0x63, 0xf0, 0x2a, 0x6f, 0xe7, 0x74, 0xec, 0xe2, 0xee, 0x88,
    0x63, 0x1c, 0x5a, 0xd8, 0x6b, 0x85, 0x13, 0xb3, 0xe9, 0x98, 0x5c, 0x5e, 0x2f, 0xd5, 0xf8, 0x54,
    0xc5, 0x02, 0x37, 0x88, 0x0a, 0x0f, 0x69, 0x15, 0x8e, 0x8c, 0x81, 0x7e, 0x20, 0x8b, 0xc9, 0x6f,
    0x1b, 0xa7, 0x58, 0xee, 0xe0, 0x00, 0x12, 0xfb, 0x87, 0x3e, 0xdc, 0x18, 0x87, 0x9e, 0xdb, 0xb2,
    0xdc, 0x99, 0x4a, 0xe4, 0x4e, 0x72, 0x35, 0xe5, 0x72, 0xef, 0x35, 0x84, 0x57, 0x79, 0x37, 0x62,
    0x06, 0x42, 0xb9, 0xbe, 0x1e, 0x7f, 0x9d, 0xf8, 0x2c, 0xf3, 0x8f, 0xe9, 0x2a, 0xaf, 0xc2, 0x5e,
    0x75, 0x4f, 0x5e, 0x06, 0xb5, 0x65, 0xbc, 0xe4, 0xa9, 0xe5, 0xfd, 0xc1, 0x3d, 0x46, 0xfc, 0x4b,
    0x97, 0x45, 0x0c, 0xa1, 0x41, 0x26, 0xff, 0x7b, 0xfc, 0x48, 0xac, 0x1e, 0x8d, 0x6a, 0x20, 0x32,
    0x00, 0x85, 0xf8, 0xac, 0xca, 0x96, 0x29, 0x1e, 0x54, 0xfe, 0x88, 0x18, 0x5a, 0x85, 0xfa, 0x15,
    0x9a, 0xc9, 0x52, 0xb4, 0x5c, 0x13, 0xf2, 0xa2, 0x42, 0xa1, 0xab, 0x63, 0x7d, 0x4e, 0x37, 0x56,
    0x20, 0x19, 0x96, 0xb9, 0x0f, 0x8e, 0xea, 0x2d, 0xc4, 0x2d, 0xcb, 0x8b, 0x23, 0xbe, 0xfc, 0x51,
    0x97, 0xae, 0xb2, 0xa0, 0x0f, 0x23, 0x45, 0x3d, 0xc6, 0x3f, 0xcd, 0x37, 0xdc, 0x72, 0xd9, 0x25,
    0x3f, 0xe1, 0xf2, 0x7f, 0x05, 0x5e, 0x78, 0x3c, 0xa6, 0x22, 0x02, 0x28, 0x40, 0x94, 0xb5, 0x73,
    0x53, 0x27, 0x82, 0x47, 0x46, 0x51, 0x33, 0x00, 0xca, 0x7c, 0x06, 0x8e, 0x15, 0xfd, 0x05, 0xd3,
    0x93, 0x56, 0x32, 0x4b, 0x7c, 0x0f, 0xa9, 0x42, 0x74, 0x41, 0x12, 0x39, 0x8a, 0x51, 0xf0, 0x22,
    0xa8, 0x65, 0x4e, 0x52, 0x22, 0x83, 0x3c, 0xdf, 0xe5, 0x5a, 0x0a, 0x20, 0xe4, 0xcb, 0xa8, 0x62,
    0xb7, 0x97, 0xb4, 0xaf, 0x91, 0x2c, 0x3d, 0x61, 0x25, 0xe0, 0xd4, 0xf8, 0xd9, 0xbd, 0xf0, 0x12,
    0x57, 0xa9, 0x6f, 0xe7, 0x5e, 0xff, 0x9a, 0x20, 0x50, 0x34, 0xe8, 0x99, 0x39, 0xe5, 0x64, 0x8a,
    0x18, 0x18, 0xbc, 0x11, 0xba, 0x76, 0xf5, 0xfd, 0xf2, 0x5e, 0x35, 0x7e, 0xce, 0xf9, 0xdd, 0xda,
    0x29, 0xba, 0x15, 0x6c, 0x24, 0x12, 0xec, 0x24, 0x28, 0x13, 0x3f, 0x5b, 0x9e, 0x5f, 0xee, 0x24,
    0x16, 0x00, 0x9c, 0x0c, 0xfd, 0x80, 0xd7, 0x87, 0x8e, 0xdb, 0xc6, 0xbe, 0xe3,
];

#[test]
fn request_names_the_host() {
    assert_eq!(
        http_request("10.0.0.1"),
        "GET / HTTP/1.0\r\nHost: 10.0.0.1\r\nUser-Agent: synapse\r\nConnection: close\r\n\r\n"
    );
}

#[test]
fn http_response_is_read() {
    let r = b"HTTP/1.1 200 OK\r\nDate: x\r\nserver:  nginx/1.2 \r\n\r\n<html><head><TITLE> Hello World </title></head>";
    let h = parse_http(r).unwrap();
    assert_eq!(h.status, 200);
    assert_eq!(h.server.as_deref(), Some("nginx/1.2"));
    assert_eq!(h.title.as_deref(), Some("Hello World"));
}

#[test]
fn http_response_first_server_line_wins() {
    let h = parse_http(b"HTTP/1.0 404 Not Found\nServer: a\nServer: b\n").unwrap();
    assert_eq!(h.status, 404);
    assert_eq!(h.server.as_deref(), Some("a"));
    assert_eq!(h.title, None);
}

#[test]
fn http_response_without_status_is_nothing() {
    assert!(parse_http(b"").is_none());
    assert!(parse_http(b"HTTP/1.1\r\n").is_none());
    assert!(parse_http(b"HTTP/1.1 abc OK\r\n").is_none());
    assert!(parse_http(b"HTTP/1.1 70000 OK\r\n").is_none());
    assert!(parse_http(&[0xff, 0xfe, b' ', b'2']).is_none());
    assert!(parse_http(b"SSH-2.0-OpenSSH_9.6\r\n").is_none());
}

#[test]
fn titles() {
    assert_eq!(extract_title("<title>x</title>"), Some("x".to_string()));
    assert_eq!(extract_title("<TiTlE>\n  Ünïcode  \n</TITLE>"), Some("Ünïcode".to_string()));
    assert_eq!(extract_title("<title>   </title>"), None);
    assert_eq!(extract_title("<title>open"), None);
    assert_eq!(extract_title("no title"), None);
    assert_eq!(extract_title("</title><title>a</title>"), Some("a".to_string()));
}

#[test]
fn tls_versions() {
    assert_eq!(tls_version_label(TlsVersion::Tls13), "TLS 1.3");
    assert_eq!(tls_version_label(TlsVersion::Tls12), "TLS 1.2");
    assert_eq!(tls_version_label(TlsVersion::Other), "TLS");
}

#[test]
fn shown_alternative_names() {
    let names = vec![
        AltName::Other,
        AltName::Ip(vec![192, 168, 7, 1]),
        AltName::Ip(vec![0; 16]),
        AltName::Dns("localhost".to_string()),
    ];
    assert_eq!(alt_names_shown(&names), vec!["192.168.7.1".to_string(), "localhost".to_string()]);
}

#[test]
fn certificate_summary() {
    let t = summarize_cert(ED25519_CERT, 0).unwrap();
    assert_eq!(t.version, "");
    assert_eq!(t.cn.as_deref(), Some("www.example.com"));
    assert_eq!(t.issuer.as_deref(), Some("www.example.com"));
    assert!(t.sans.is_empty());
    assert_eq!(t.expiry.as_deref(), Some("2023-06-27"));
    assert!(!t.expired);
}

#[test]
fn certificate_expiry_is_against_the_given_time() {
    // notAfter is 2023-06-27 12:37:14 UTC = 1687869434
    assert!(!summarize_cert(ED25519_CERT, 1687869434).unwrap().expired);
    assert!(summarize_cert(ED25519_CERT, 1687869435).unwrap().expired);
}

#[test]
fn certificate_alternative_names_keep_dns_and_ipv4() {
    let t = summarize_cert(MIXED_SAN_CERT, 0).unwrap();
    assert_eq!(t.cn.as_deref(), Some("secure.example.com"));
    assert_eq!(t.sans, vec!["192.168.7.1".to_string(), "localhost".to_string()]);
    assert_eq!(t.expiry.as_deref(), Some("2020-09-18"));
}

#[test]
fn certificate_read_now_has_expired() {
    let t = parse_cert(ED25519_CERT).unwrap();
    assert!(t.expired);
    assert_eq!(t.expiry.as_deref(), Some("2023-06-27"));
}

#[test]
fn garbage_is_no_certificate() {
    assert!(summarize_cert(b"not a certificate", 0).is_none());
    assert!(parse_cert(&[]).is_none());
    assert!(summarize_cert(&ED25519_CERT[..100], 0).is_none());
}

fn tls(cn: Option<&str>, sans: &[&str], expired: bool) -> TlsInfo {
    TlsInfo {
        version: "TLS 1.3".to_string(),
        cn: cn.map(String::from),
        sans: sans.iter().map(|s| s.to_string()).collect(),
        issuer: Some("R3".to_string()),
        expiry: Some("2030-01-01".to_string()),
        expired,
    }
}

#[test]
fn probe_summaries() {
    let p = ProbeResult {
        tls: Some(tls(Some("example.com"), &[], false)),
        http: Some(HttpInfo { status: 200, server: Some("nginx".to_string()), title: Some("Home".to_string()) }),
    };
    assert_eq!(format_probe(&p), "TLS 1.3 | CN:example.com | issuer:R3 | exp:2030-01-01 | HTTP 200 | nginx | \"Home\"");
    let q = ProbeResult { tls: Some(tls(None, &["a.example", "b.example"], true)), http: None };
    assert_eq!(format_probe(&q), "TLS 1.3 | SAN:a.example | issuer:R3 | exp:2030-01-01 [!]");
    let e = ProbeResult { tls: None, http: None };
    assert_eq!(format_probe(&e), "");
    let h = ProbeResult { tls: None, http: Some(HttpInfo { status: 301, server: None, title: None }) };
    assert_eq!(format_probe(&h), "HTTP 301");
}

#[test]
fn long_titles_are_cut_at_40_bytes() {
    let t = "abcdefghijklmnopqrstuvwxyz0123456789ABCDEFGH".to_string();
    let p = ProbeResult { tls: None, http: Some(HttpInfo { status: 200, server: None, title: Some(t) }) };
    assert_eq!(format_probe(&p), "HTTP 200 | \"abcdefghijklmnopqrstuvwxyz0123456789ABCD\"");
}

#[test]
fn services_file_is_read() {
    let text = "# comment\nhttp\t80/tcp\t0.48\nssh 22/tcp # secure shell\ndomain 53/udp\nbad x/tcp\n\nhttps 443/tcp\nhttp-alt 80/tcp\n+plus +8/tcp\nonlyname\n";
    let m = parse_services(text);
    assert_eq!(m.len(), 4);
    assert_eq!(m[&80], "http-alt");
    assert_eq!(m[&22], "ssh");
    assert_eq!(m[&443], "https");
    assert_eq!(m[&8], "+plus");
    assert!(!m.contains_key(&53));
}

#[test]
fn empty_services_file() {
    assert!(parse_services("").is_empty());
}

#[test]
fn tls_results_label_the_version() {
    let t = tls_result(TlsVersion::Tls12, Some(ED25519_CERT));
    assert_eq!(t.version, "TLS 1.2");
    assert_eq!(t.cn.as_deref(), Some("www.example.com"));
    assert_eq!(t.expiry.as_deref(), Some("2023-06-27"));
    assert!(t.expired);
    let empty = tls_result(TlsVersion::Tls13, None);
    assert_eq!(empty.version, "TLS 1.3");
    assert!(empty.cn.is_none() && empty.sans.is_empty() && empty.issuer.is_none() && empty.expiry.is_none());
    assert!(!empty.expired);
    let junk = tls_result(TlsVersion::Other, Some(b"junk"));
    assert_eq!(junk.version, "TLS");
    assert!(junk.cn.is_none() && junk.expiry.is_none());
}

#[test]
fn unicode_whitespace_is_trimmed() {
    assert_eq!(extract_title("<title>\u{a0}\u{3000}x y\u{2009}\n</title>"), Some("x y".to_string()));
    assert_eq!(extract_title("<title>\u{200b}</title>"), Some("\u{200b}".to_string()));
    let m = parse_services("ftp\u{3000}21/tcp\n");
    assert_eq!(m[&21], "ftp");
}
