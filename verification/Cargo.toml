[package]
name = "my_torrent_client_project"
version = "0.1.0"
edition = "2021"
publish = false

[dependencies]
bencode = "=0.1.16"
sha1_smol = "1"
