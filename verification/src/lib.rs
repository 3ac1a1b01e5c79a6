//! Verified KolibriOS kernel and orchestrator helpers.

pub mod ahci;
pub mod casefold;
pub mod crc;
pub mod wrap;
pub mod fat_sector;
pub mod bits;
pub mod font;
pub mod pixel;
pub mod hotkey;
pub mod inode;
pub mod le;
pub mod coff_align;
pub mod geometry;
pub mod fs_op_safe;
pub mod ipv4_frag;
pub mod inet_csum;
pub mod ipv4_frame;
pub mod ipv4_output;
pub mod fs_time;
pub mod coff_sym;
pub mod coff_reloc;
pub mod pe_export;
pub mod fat_name;
pub mod exfat_checksum;
pub mod page_addr;
pub mod ipv4_route;
pub mod app_header;
pub mod io_access;
pub mod orch;
pub mod ip_checksum;
pub mod ext_time;
pub mod ext_set_file_info;
pub mod coff_fix;
pub mod blit;
pub mod draw_char;
