pub mod admission;
pub mod arena;
pub mod board_laws;
pub mod boot;
pub mod boot_space;
pub mod bootclient;
pub mod bootmap;
pub mod bytes;
pub mod cdm;
pub mod cdm_laws;
pub mod client;
pub mod client_stamps;
pub mod cmdbuf;
pub mod commands;
pub mod compute;
pub mod compute_laws;
pub mod contexts;
pub mod device;
pub mod engine;
pub mod error;
pub mod events;
pub mod flights;
pub mod flush;
pub mod fw;
pub mod growth;
pub mod jobs;
pub mod lanes;
pub mod launch;
pub mod mapping;
pub mod mem;
pub mod fwshare;
pub mod fwspace;
pub mod fwspace_io;
pub mod fwspace_end;
pub mod fwspace_ext;
pub mod memory_laws;
pub mod notify;
pub mod object_laws;
pub mod operands;
pub mod params;
pub mod params_laws;
pub mod pgtable;
pub mod pgtable_laws;
pub mod place_laws;
pub mod plan;
pub mod platform;
pub mod pools;
pub mod power;
pub mod power_laws;
pub mod prot;
pub mod provision;
pub mod publish;
pub mod publish_laws;
pub mod queue;
pub mod ranges;
pub mod register_laws;
pub mod render;
pub mod render_laws;
pub mod request_laws;
pub mod retire;
pub mod ring;
pub mod schedule_laws;
pub mod session;
pub mod session_laws;
pub mod slots;
pub mod space;
pub mod space_alloc;
pub mod space_check;
pub mod space_map;
pub mod space_share;
pub mod stamp;
pub mod stampmap;
pub mod submission;
pub mod submit;
pub mod submit_compute;
pub mod tables;
pub mod timestamps;
pub mod tvb;
pub mod vm_map;
pub mod walk;
pub mod works;
