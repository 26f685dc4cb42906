[package]
name = "action_server"
version = "0.1.0"
edition = "2021"
publish = false

[dependencies]
rosidl_runtime_rs = { version = "=0.7.0", features = ["use_ros_shim"] }
