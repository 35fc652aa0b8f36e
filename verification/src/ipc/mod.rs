pub mod binary_tcp;
